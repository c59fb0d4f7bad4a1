//! The map itself: one entry per type name, each holding a serialized value
//! and, once accessed, the deserialized value.

use crate::foreign::{clone_value, vec_capacity, vec_shrink_to, vec_shrink_to_fit, vec_try_reserve};
use crate::entry::{Entry, OccupiedEntry, OccupiedError, VacantEntry};
use crate::item::{
    extracted, load_failed, refreshed, without_cache, Item, ItemView, RawItem,
};
use crate::write_guard::WriteGuard;
use crate::stable_type_id::StableTypeId;
use serde_value::{DeserializerError, Value};
use std::collections::TryReserveError;
use vstd::prelude::*;

verus! {

/// The entries of a map as it is stored: a key and an entry for each type.
pub type Entries<C> = Seq<(StableTypeId, RawItem<C>)>;

/// Index `i` of `s` holds key `k`.
pub open spec fn holds_key<C>(s: Entries<C>, i: int, k: Seq<char>) -> bool {
    0 <= i < s.len() && s[i].0@ == k
}

/// No key occurs twice in `s`.
pub open spec fn keys_distinct<C>(s: Entries<C>) -> bool {
    forall|i: int, j: int|
        #![trigger s[i], s[j]]
        0 <= i < s.len() && 0 <= j < s.len() && i != j ==> s[i].0@ != s[j].0@
}

/// The map that `s` stands for: each key to the view of its entry.
pub open spec fn entries_view<C>(s: Entries<C>) -> Map<Seq<char>, ItemView<C>> {
    Map::new(
        |k: Seq<char>| exists|i: int| holds_key(s, i, k),
        |k: Seq<char>| s[choose|i: int| holds_key(s, i, k)].1@,
    )
}

/// `m` with the deserialized value of every entry dropped.
pub open spec fn without_caches<C>(m: Map<Seq<char>, ItemView<C>>) -> Map<Seq<char>, ItemView<C>> {
    m.map_values(|v: ItemView<C>| without_cache(v))
}

/// The map built from serialized entries, a later entry replacing an
/// earlier one with the same key; no entry has a deserialized value.
pub open spec fn serialized_view<C>(s: Seq<(StableTypeId, Value)>) -> Map<Seq<char>, ItemView<C>>
    decreases s.len(),
{
    if s.len() == 0 {
        Map::empty()
    } else {
        serialized_view::<C>(s.drop_last()).insert(
            s.last().0@,
            ItemView { serialized: s.last().1, cached: None },
        )
    }
}

/// The serialized entries of `s`: each key with the serialized form stored
/// under it, in storage order.
pub open spec fn serialized_of<C>(s: Entries<C>) -> Seq<(StableTypeId, Value)> {
    s.map_values(|p: (StableTypeId, RawItem<C>)| (p.0, p.1@.serialized))
}

/// What `entry` does to a map `before` for key `k`, leaving `after` and
/// reporting `err`: with nothing stored, nothing; where the value fails to
/// deserialize with `load`, the entry is removed and the error reported;
/// otherwise the value is deserialized (if it was not already) and the
/// serialized form written anew with `store`.
pub open spec fn entry_outcome<C, L, S>(
    load: L,
    store: S,
    before: Map<Seq<char>, ItemView<C>>,
    k: Seq<char>,
    after: Map<Seq<char>, ItemView<C>>,
    err: Option<DeserializerError>,
) -> bool where
    L: Fn(&Value) -> Result<C, DeserializerError>,
    S: Fn(&C) -> Value,
 {
    if !before.contains_key(k) {
        after == before && err is None
    } else {
        match err {
            Some(e) => load_failed(load, before[k], e) && after == before.remove(k),
            None => {
                &&& after.contains_key(k)
                &&& refreshed(load, store, before[k], after[k])
                &&& after == before.insert(k, after[k])
            },
        }
    }
}

/// The size in bytes of one stored entry.
pub open spec fn entry_size<C>() -> nat {
    vstd::layout::size_of::<(StableTypeId, RawItem<C>)>()
}

/// The entry at index `i` of a map whose keys are distinct is what the view
/// gives for its key.
pub proof fn lemma_entries_at<C>(s: Entries<C>, i: int)
    requires
        keys_distinct(s),
        0 <= i < s.len(),
    ensures
        entries_view(s).contains_key(s[i].0@),
        entries_view(s)[s[i].0@] == s[i].1@,
{
    let k = s[i].0@;
    assert(holds_key(s, i, k));
    let j = choose|j: int| holds_key(s, j, k);
    assert(s[j].0@ == k);
}

/// The view of no entries is the empty map.
pub proof fn lemma_entries_empty<C>(s: Entries<C>)
    requires
        s.len() == 0,
    ensures
        entries_view(s) == Map::<Seq<char>, ItemView<C>>::empty(),
        keys_distinct(s),
{
    assert(entries_view(s) =~= Map::<Seq<char>, ItemView<C>>::empty());
}

/// Appending an entry with a new key adds that key to the view.
pub proof fn lemma_entries_push<C>(s: Entries<C>, e: (StableTypeId, RawItem<C>))
    requires
        keys_distinct(s),
        !entries_view(s).contains_key(e.0@),
    ensures
        keys_distinct(s.push(e)),
        entries_view(s.push(e)) == entries_view(s).insert(e.0@, e.1@),
{
    let s2 = s.push(e);
    let m = entries_view(s).insert(e.0@, e.1@);
    assert forall|i: int| 0 <= i < s.len() implies s[i].0@ != e.0@ by {
        if s[i].0@ == e.0@ {
            assert(holds_key(s, i, e.0@));
        }
    }
    assert(keys_distinct(s2)) by {
        assert forall|i: int, j: int|
            0 <= i < s2.len() && 0 <= j < s2.len() && i != j implies s2[i].0@ != s2[j].0@ by {
            if i < s.len() && j < s.len() {
                assert(s2[i] == s[i] && s2[j] == s[j]);
            }
        }
    }
    assert forall|k: Seq<char>| #[trigger]
        entries_view(s2).contains_key(k) <==> m.contains_key(k) by {
        if entries_view(s2).contains_key(k) {
            let i = choose|i: int| holds_key(s2, i, k);
            if i < s.len() {
                assert(holds_key(s, i, k));
            }
        }
        if entries_view(s).contains_key(k) {
            let i = choose|i: int| holds_key(s, i, k);
            assert(holds_key(s2, i, k));
        }
        if k == e.0@ {
            assert(holds_key(s2, s.len() as int, k));
        }
    }
    assert forall|k: Seq<char>| entries_view(s2).contains_key(k) implies entries_view(s2)[k]
        == m[k] by {
        let i = choose|i: int| holds_key(s2, i, k);
        lemma_entries_at(s2, i);
        if i < s.len() {
            assert(s2[i] == s[i]);
            lemma_entries_at(s, i);
        }
    }
    assert(entries_view(s2) =~= m);
}

/// Replacing the entry at index `i`, key kept, replaces the view of that key.
pub proof fn lemma_entries_update<C>(s: Entries<C>, i: int, e: (StableTypeId, RawItem<C>))
    requires
        keys_distinct(s),
        0 <= i < s.len(),
        e.0@ == s[i].0@,
    ensures
        keys_distinct(s.update(i, e)),
        entries_view(s.update(i, e)) == entries_view(s).insert(e.0@, e.1@),
{
    let s2 = s.update(i, e);
    let m = entries_view(s).insert(e.0@, e.1@);
    assert(keys_distinct(s2)) by {
        assert forall|a: int, b: int|
            0 <= a < s2.len() && 0 <= b < s2.len() && a != b implies s2[a].0@ != s2[b].0@ by {
            assert(s2[a].0@ == s[a].0@ && s2[b].0@ == s[b].0@);
        }
    }
    assert forall|k: Seq<char>| #[trigger]
        entries_view(s2).contains_key(k) <==> m.contains_key(k) by {
        if entries_view(s2).contains_key(k) {
            let j = choose|j: int| holds_key(s2, j, k);
            assert(holds_key(s, j, k));
        }
        if entries_view(s).contains_key(k) {
            let j = choose|j: int| holds_key(s, j, k);
            assert(holds_key(s2, j, k));
        }
        if k == e.0@ {
            assert(holds_key(s2, i, k));
        }
    }
    assert forall|k: Seq<char>| entries_view(s2).contains_key(k) implies entries_view(s2)[k]
        == m[k] by {
        let j = choose|j: int| holds_key(s2, j, k);
        lemma_entries_at(s2, j);
        if j != i {
            assert(s2[j] == s[j]);
            lemma_entries_at(s, j);
        }
    }
    assert(entries_view(s2) =~= m);
}

/// Removing the entry at index `i` removes its key from the view.
pub proof fn lemma_entries_remove<C>(s: Entries<C>, i: int)
    requires
        keys_distinct(s),
        0 <= i < s.len(),
    ensures
        keys_distinct(s.remove(i)),
        entries_view(s.remove(i)) == entries_view(s).remove(s[i].0@),
{
    let s2 = s.remove(i);
    let k0 = s[i].0@;
    let m = entries_view(s).remove(k0);
    assert forall|j: int| 0 <= j < s2.len() implies #[trigger] s2[j] == (if j < i {
        s[j]
    } else {
        s[j + 1]
    }) by {}
    assert(keys_distinct(s2)) by {
        assert forall|a: int, b: int|
            0 <= a < s2.len() && 0 <= b < s2.len() && a != b implies s2[a].0@ != s2[b].0@ by {
            let a1 = if a < i {
                a
            } else {
                a + 1
            };
            let b1 = if b < i {
                b
            } else {
                b + 1
            };
            assert(s2[a] == s[a1] && s2[b] == s[b1]);
        }
    }
    assert forall|k: Seq<char>| #[trigger]
        entries_view(s2).contains_key(k) <==> m.contains_key(k) by {
        if entries_view(s2).contains_key(k) {
            let j = choose|j: int| holds_key(s2, j, k);
            let j1 = if j < i {
                j
            } else {
                j + 1
            };
            assert(s2[j] == s[j1]);
            assert(holds_key(s, j1, k));
            assert(j1 != i);
        }
        if m.contains_key(k) {
            let j = choose|j: int| holds_key(s, j, k);
            assert(j != i);
            let j2 = if j < i {
                j
            } else {
                j - 1
            };
            assert(s2[j2] == s[j]);
            assert(holds_key(s2, j2, k));
        }
    }
    assert forall|k: Seq<char>| entries_view(s2).contains_key(k) implies entries_view(s2)[k]
        == m[k] by {
        let j = choose|j: int| holds_key(s2, j, k);
        let j1 = if j < i {
            j
        } else {
            j + 1
        };
        assert(s2[j] == s[j1]);
        lemma_entries_at(s2, j);
        lemma_entries_at(s, j1);
    }
    assert(entries_view(s2) =~= m);
}

/// A map whose keys are distinct has as many keys as entries.
pub proof fn lemma_entries_len<C>(s: Entries<C>)
    requires
        keys_distinct(s),
    ensures
        entries_view(s).dom().finite(),
        entries_view(s).len() == s.len(),
{
    let keys = s.map_values(|p: (StableTypeId, RawItem<C>)| p.0@);
    assert(keys.no_duplicates()) by {
        assert forall|i: int, j: int|
            0 <= i < keys.len() && 0 <= j < keys.len() && i != j implies keys[i] != keys[j] by {
            assert(keys[i] == s[i].0@ && keys[j] == s[j].0@);
        }
    }
    assert forall|k: Seq<char>| #[trigger]
        entries_view(s).dom().contains(k) <==> keys.to_set().contains(k) by {
        if entries_view(s).dom().contains(k) {
            let i = choose|i: int| holds_key(s, i, k);
            assert(keys[i] == k);
        }
        if keys.to_set().contains(k) {
            let i = choose|i: int| 0 <= i < keys.len() && keys[i] == k;
            assert(holds_key(s, i, k));
        }
    }
    assert(entries_view(s).dom() =~= keys.to_set());
    keys.unique_seq_to_set();
}

/// Two entry sequences with the same keys at the same places, the second
/// holding the entries of the first without their deserialized values, stand
/// for the same map without deserialized values.
pub proof fn lemma_entries_without_caches<C>(s: Entries<C>, t: Entries<C>)
    requires
        keys_distinct(s),
        t.len() == s.len(),
        forall|i: int| 0 <= i < s.len() ==> #[trigger] t[i].0 == s[i].0 && t[i].1@ == without_cache(s[i].1@),
    ensures
        keys_distinct(t),
        entries_view(t) == without_caches(entries_view(s)),
{
    assert(keys_distinct(t)) by {
        assert forall|i: int, j: int|
            0 <= i < t.len() && 0 <= j < t.len() && i != j implies t[i].0@ != t[j].0@ by {
            assert(t[i].0 == s[i].0 && t[j].0 == s[j].0);
        }
    }
    let m = without_caches(entries_view(s));
    assert forall|k: Seq<char>| #[trigger]
        entries_view(t).contains_key(k) <==> m.contains_key(k) by {
        if entries_view(t).contains_key(k) {
            let i = choose|i: int| holds_key(t, i, k);
            assert(t[i].0 == s[i].0);
            assert(holds_key(s, i, k));
        }
        if entries_view(s).contains_key(k) {
            let i = choose|i: int| holds_key(s, i, k);
            assert(t[i].0 == s[i].0);
            assert(holds_key(t, i, k));
        }
    }
    assert forall|k: Seq<char>| entries_view(t).contains_key(k) implies entries_view(t)[k] == m[k] by {
        let i = choose|i: int| holds_key(t, i, k);
        assert(t[i].0 == s[i].0);
        lemma_entries_at(t, i);
        lemma_entries_at(s, i);
    }
    assert(entries_view(t) =~= m);
}

/// The serialized entries of a map whose keys are distinct, read back, give
/// the map without its deserialized values.
pub proof fn lemma_serialized_view_of<C>(s: Entries<C>)
    requires
        keys_distinct(s),
    ensures
        serialized_view::<C>(serialized_of(s)) == without_caches(entries_view(s)),
    decreases s.len(),
{
    if s.len() == 0 {
        lemma_entries_empty(s);
        assert(without_caches(entries_view(s)) =~= Map::<Seq<char>, ItemView<C>>::empty());
    } else {
        let s0 = s.drop_last();
        let e = s.last();
        assert(keys_distinct(s0)) by {
            assert forall|i: int, j: int|
                0 <= i < s0.len() && 0 <= j < s0.len() && i != j implies s0[i].0@ != s0[j].0@ by {
                assert(s0[i] == s[i] && s0[j] == s[j]);
            }
        }
        lemma_serialized_view_of(s0);
        assert(serialized_of(s).drop_last() =~= serialized_of(s0));
        assert(!entries_view(s0).contains_key(e.0@)) by {
            if entries_view(s0).contains_key(e.0@) {
                let i = choose|i: int| holds_key(s0, i, e.0@);
                assert(s0[i] == s[i]);
                assert(s[s.len() - 1] == e);
            }
        }
        lemma_entries_push(s0, e);
        assert(s0.push(e) =~= s);
        assert(without_caches(entries_view(s0)).insert(e.0@, without_cache(e.1@)) =~= without_caches(
            entries_view(s0).insert(e.0@, e.1@),
        ));
    }
}

/// A serializable heterogeneous map keyed by the name of the stored type.
///
/// Each entry holds the serialized form of a value and, once the value has
/// been inserted or lazily deserialized, the value itself (of type `C`, the
/// caller's representation of "any value", such as `Box<dyn Any>`). Only the
/// serialized forms take part in a serialization of the map; a map rebuilt
/// from them holds no deserialized values until an access produces them.
pub struct SerializableAnyMap<C> {
    raw: Vec<(StableTypeId, RawItem<C>)>,
}

impl<C> View for SerializableAnyMap<C> {
    type V = Map<Seq<char>, ItemView<C>>;

    open spec fn view(&self) -> Map<Seq<char>, ItemView<C>> {
        entries_view(self.entries())
    }
}

impl<C> SerializableAnyMap<C> {
    /// The stored entries, in storage order.
    pub closed spec fn entries(&self) -> Entries<C> {
        self.raw@
    }

    /// No key is stored twice.
    pub open spec fn wf(&self) -> bool {
        keys_distinct(self.entries())
    }

    /// The index of `key`, if it is stored.
    pub(crate) fn find(&self, key: &StableTypeId) -> (r: Option<usize>)
        requires
            self.wf(),
        ensures
            match r {
                Some(i) => i < self.entries().len() && self.entries()[i as int].0@ == key@
                    && self@.contains_key(key@) && self@[key@] == self.entries()[i as int].1@,
                None => !self@.contains_key(key@),
            },
    {
        let n = self.raw.len();
        let mut i: usize = 0;
        while i < n
            invariant
                n == self.raw@.len(),
                keys_distinct(self.raw@),
                i <= n,
                forall|j: int| 0 <= j < i ==> self.raw@[j].0@ != key@,
            decreases n - i,
        {
            if self.raw[i].0.same(key) {
                proof {
                    lemma_entries_at(self.raw@, i as int);
                }
                return Some(i);
            }
            i = i + 1;
        }
        proof {
            if self@.contains_key(key@) {
                let j = choose|j: int| holds_key(self.raw@, j, key@);
                assert(self.raw@[j].0@ == key@);
            }
        }
        None
    }

    /// The entry at index `i`.
    pub(crate) fn item_at(&self, i: usize) -> (r: &RawItem<C>)
        requires
            i < self.entries().len(),
        ensures
            *r == self.entries()[i as int].1,
    {
        &self.raw[i].1
    }

    /// A mutable reference to the entry at index `i`; its key stays.
    pub(crate) fn item_mut(&mut self, i: usize) -> (r: &mut RawItem<C>)
        requires
            i < old(self).entries().len(),
        ensures
            *r == old(self).entries()[i as int].1,
            final(self).entries() == old(self).entries().update(
                i as int,
                (old(self).entries()[i as int].0, *final(r)),
            ),
    {
        &mut self.raw[i].1
    }

    /// Removes and returns the entry at index `i`.
    pub(crate) fn remove_at(&mut self, i: usize) -> (r: (StableTypeId, RawItem<C>))
        requires
            i < old(self).entries().len(),
        ensures
            r == old(self).entries()[i as int],
            final(self).entries() == old(self).entries().remove(i as int),
    {
        self.raw.remove(i)
    }

    /// Appends an entry, returning its index; the caller makes sure its key
    /// is new.
    pub(crate) fn push_entry(&mut self, key: StableTypeId, item: RawItem<C>) -> (n: usize)
        ensures
            n == old(self).entries().len(),
            final(self).entries() == old(self).entries().push((key, item)),
    {
        let n = self.raw.len();
        self.raw.push((key, item));
        n
    }

    /// Creates a new empty map.
    pub fn new() -> (r: Self)
        ensures
            r.wf(),
            r@ == Map::<Seq<char>, ItemView<C>>::empty(),
    {
        let r = SerializableAnyMap { raw: Vec::new() };
        proof {
            lemma_entries_empty(r.raw@);
        }
        r
    }

    /// Creates a new empty map with space for at least `capacity` entries.
    /// The space asked for must fit in `isize::MAX` bytes.
    pub fn with_capacity(capacity: usize) -> (r: Self)
        requires
            capacity * entry_size::<C>() <= isize::MAX,
        ensures
            r.wf(),
            r@ == Map::<Seq<char>, ItemView<C>>::empty(),
    {
        let r = SerializableAnyMap { raw: Vec::with_capacity(capacity) };
        proof {
            lemma_entries_empty(r.raw@);
        }
        r
    }

    /// The number of entries the map can hold without reallocating: never
    /// fewer than it holds, and never more than fit in `isize::MAX` bytes.
    pub fn capacity(&self) -> (r: usize)
        requires
            self.wf(),
        ensures
            r >= self@.len(),
            r * entry_size::<C>() <= isize::MAX,
    {
        proof {
            lemma_entries_len(self.raw@);
        }
        vec_capacity(&self.raw)
    }

    /// Reserves space for at least `additional` more entries. The new
    /// allocation, which may hold up to twice the entries asked for, must fit
    /// in `isize::MAX` bytes.
    pub fn reserve(&mut self, additional: usize)
        requires
            old(self).entries().len() + additional <= usize::MAX,
            2 * (old(self).entries().len() + additional) * entry_size::<C>() <= isize::MAX,
        ensures
            final(self).entries() == old(self).entries(),
            final(self)@ == old(self)@,
    {
        self.raw.reserve(additional);
    }

    /// Tries to reserve space for at least `additional` more entries; the
    /// entries stay whatever the outcome. It fails where the room asked for
    /// exceeds `usize::MAX` entries or `isize::MAX` bytes; otherwise the
    /// outcome depends on the allocator.
    pub fn try_reserve(&mut self, additional: usize) -> (r: Result<(), TryReserveError>)
        ensures
            final(self).entries() == old(self).entries(),
            final(self)@ == old(self)@,
            old(self).entries().len() + additional > usize::MAX ==> r is Err,
            (old(self).entries().len() + additional) * entry_size::<C>() > isize::MAX ==> r is Err,
            old(self).wf() ==> (old(self)@.len() + additional > usize::MAX ==> r is Err),
    {
        proof {
            if old(self).wf() {
                lemma_entries_len(self.raw@);
            }
        }
        vec_try_reserve(&mut self.raw, additional)
    }

    /// Shrinks the allocation as far as possible; the entries stay.
    pub fn shrink_to_fit(&mut self)
        ensures
            final(self).entries() == old(self).entries(),
            final(self)@ == old(self)@,
    {
        vec_shrink_to_fit(&mut self.raw)
    }

    /// Shrinks the allocation, keeping room for at least `min_capacity`
    /// entries; the entries stay.
    pub fn shrink_to(&mut self, min_capacity: usize)
        ensures
            final(self).entries() == old(self).entries(),
            final(self)@ == old(self)@,
    {
        vec_shrink_to(&mut self.raw, min_capacity)
    }

    /// The number of entries, whether or not their values can be
    /// deserialized.
    pub fn len(&self) -> (r: usize)
        requires
            self.wf(),
        ensures
            r == self@.len(),
    {
        proof {
            lemma_entries_len(self.raw@);
        }
        self.raw.len()
    }

    /// Whether the map has no entries.
    pub fn is_empty(&self) -> (r: bool)
        requires
            self.wf(),
        ensures
            r == (self@.len() == 0),
    {
        proof {
            lemma_entries_len(self.raw@);
        }
        self.raw.len() == 0
    }

    /// Removes all entries.
    pub fn clear(&mut self)
        ensures
            final(self).wf(),
            final(self)@ == Map::<Seq<char>, ItemView<C>>::empty(),
    {
        self.raw.clear();
        proof {
            lemma_entries_empty(self.raw@);
        }
    }

    /// The deserialized value stored under `key`, if it exists and has been
    /// deserialized already. Does not deserialize.
    pub fn try_get(&self, key: &StableTypeId) -> (r: Option<&C>)
        requires
            self.wf(),
        ensures
            match r {
                Some(c) => self@.contains_key(key@) && self@[key@].cached == Some(*c),
                None => !self@.contains_key(key@) || self@[key@].cached is None,
            },
    {
        match self.find(key) {
            Some(i) => self.raw[i].1.try_get(),
            None => None,
        }
    }

    /// The serialized form stored under `key`.
    pub fn get_serialized_value(&self, key: &StableTypeId) -> (r: Option<&Value>)
        requires
            self.wf(),
        ensures
            match r {
                Some(v) => self@.contains_key(key@) && self@[key@].serialized == *v,
                None => !self@.contains_key(key@),
            },
    {
        match self.find(key) {
            Some(i) => Some(self.raw[i].1.serialized()),
            None => None,
        }
    }

    /// A fresh copy of the value stored under `key`, made by deserializing its
    /// serialized form with `load`; `None` where there is no entry or the
    /// deserialization fails. The stored entry is left as it is.
    pub fn get_deserialized_copy<L>(&self, key: &StableTypeId, load: L) -> (r: Option<C>) where
        L: Fn(&Value) -> Result<C, DeserializerError>,

        requires
            self.wf(),
            forall|v: &Value| #[trigger] load.requires((v,)),
        ensures
            match r {
                Some(c) => self@.contains_key(key@) && load.ensures(
                    (&self@[key@].serialized,),
                    Ok(c),
                ),
                None => !self@.contains_key(key@) || exists|e: DeserializerError|
                    load.ensures((&self@[key@].serialized,), Err(e)),
            },
    {
        match self.get_serialized_value(key) {
            Some(v) => match load(v) {
                Ok(c) => Some(c),
                Err(e) => None,
            },
            None => None,
        }
    }

    /// Whether an entry is stored under `key`, deserialized or not.
    pub fn contains(&self, key: &StableTypeId) -> (r: bool)
        requires
            self.wf(),
        ensures
            r == self@.contains_key(key@),
    {
        self.find(key).is_some()
    }

    /// Whether an entry is stored under `key` and its value has been
    /// deserialized already.
    pub fn contains_deserialized(&self, key: &StableTypeId) -> (r: bool)
        requires
            self.wf(),
        ensures
            r == (self@.contains_key(key@) && self@[key@].cached is Some),
    {
        match self.find(key) {
            Some(i) => self.raw[i].1.is_deserialized(),
            None => false,
        }
    }

    /// Stores `item` under `key`, returning the entry that was there.
    fn put(&mut self, key: StableTypeId, item: RawItem<C>) -> (r: Option<RawItem<C>>)
        requires
            old(self).wf(),
        ensures
            final(self).wf(),
            final(self)@ == old(self)@.insert(key@, item@),
            match r {
                Some(old_item) => old(self)@.contains_key(key@) && old_item@ == old(self)@[key@],
                None => !old(self)@.contains_key(key@),
            },
    {
        match self.find(&key) {
            Some(i) => {
                let ghost s = self.raw@;
                let mut old_item = item;
                std::mem::swap(&mut self.raw[i].1, &mut old_item);
                proof {
                    assert(self.raw@ == s.update(i as int, (s[i as int].0, item)));
                    lemma_entries_update(s, i as int, (s[i as int].0, item));
                }
                Some(old_item)
            },
            None => {
                proof {
                    lemma_entries_push(self.raw@, (key, item));
                }
                self.raw.push((key, item));
                None
            },
        }
    }

    /// Stores an already serialized value under `key`, without a deserialized
    /// value; it is deserialized on first access. Returns the entry that was
    /// there.
    pub fn insert_only_serialized(&mut self, key: StableTypeId, value: Value) -> (r: Option<Item<C>>)
        requires
            old(self).wf(),
        ensures
            final(self).wf(),
            final(self)@ == old(self)@.insert(key@, ItemView { serialized: value, cached: None }),
            match r {
                Some(it) => old(self)@.contains_key(key@) && it@ == old(self)@[key@],
                None => !old(self)@.contains_key(key@),
            },
    {
        match self.put(key, RawItem::new(value, None)) {
            Some(it) => Some(it.wrap()),
            None => None,
        }
    }

    /// Stores `value` under `key`, serialized at once with `store` and kept in
    /// deserialized form too. Returns the entry that was there.
    pub fn insert<S>(&mut self, key: StableTypeId, value: C, store: S) -> (r: Option<Item<C>>) where
        S: Fn(&C) -> Value,

        requires
            old(self).wf(),
            forall|c: &C| #[trigger] store.requires((c,)),
        ensures
            final(self).wf(),
            final(self)@.contains_key(key@),
            final(self)@ == old(self)@.insert(key@, final(self)@[key@]),
            final(self)@[key@].cached == Some(value),
            store.ensures((&value,), final(self)@[key@].serialized),
            match r {
                Some(it) => old(self)@.contains_key(key@) && it@ == old(self)@[key@],
                None => !old(self)@.contains_key(key@),
            },
    {
        let serialized = store(&value);
        match self.put(key, RawItem::new(serialized, Some(value))) {
            Some(it) => Some(it.wrap()),
            None => None,
        }
    }

    /// Removes the entry stored under `key` and returns its value: the
    /// deserialized value if there is one, and otherwise the result of
    /// deserializing the serialized form with `load`. A value that fails to
    /// deserialize is removed all the same, and `None` returned.
    pub fn remove<L>(&mut self, key: &StableTypeId, load: L) -> (r: Option<C>) where
        L: Fn(&Value) -> Result<C, DeserializerError>,

        requires
            old(self).wf(),
            forall|v: &Value| #[trigger] load.requires((v,)),
        ensures
            final(self).wf(),
            final(self)@ == old(self)@.remove(key@),
            match r {
                Some(c) => old(self)@.contains_key(key@) && extracted(
                    load,
                    old(self)@[key@],
                    Ok(c),
                ),
                None => !old(self)@.contains_key(key@) || exists|e: DeserializerError|
                    extracted(load, old(self)@[key@], Err(e)),
            },
    {
        match self.find(key) {
            Some(i) => {
                proof {
                    lemma_entries_remove(self.raw@, i as int);
                }
                let (_, item) = self.raw.remove(i);
                match item.into_inner(load) {
                    Ok(c) => Some(c),
                    Err(e) => None,
                }
            },
            None => {
                proof {
                    assert(old(self)@.remove(key@) =~= old(self)@);
                }
                None
            },
        }
    }

    /// The keys of all entries, each once, in storage order.
    pub fn keys(&self) -> (r: Vec<StableTypeId>)
        requires
            self.wf(),
        ensures
            r@.len() == self.entries().len(),
            forall|i: int| 0 <= i < r@.len() ==> #[trigger] r@[i] == self.entries()[i].0,
            forall|k: Seq<char>|
                self@.contains_key(k) <==> exists|i: int| 0 <= i < r@.len() && #[trigger] r@[i]@ == k,
            forall|i: int, j: int|
                0 <= i < r@.len() && 0 <= j < r@.len() && i != j ==> #[trigger] r@[i]@ != #[trigger] r@[j]@,
    {
        let mut out: Vec<StableTypeId> = Vec::new();
        let n = self.raw.len();
        for i in 0..n
            invariant
                n == self.raw@.len(),
                out@.len() == i,
                forall|j: int| 0 <= j < i ==> #[trigger] out@[j] == self.raw@[j].0,
        {
            out.push(self.raw[i].0.clone());
        }
        proof {
            assert forall|k: Seq<char>|
                self@.contains_key(k) <==> exists|i: int| 0 <= i < out@.len() && #[trigger] out@[i]@ == k by {
                if self@.contains_key(k) {
                    let i = choose|i: int| holds_key(self.raw@, i, k);
                    assert(out@[i]@ == k);
                }
                if exists|i: int| 0 <= i < out@.len() && #[trigger] out@[i]@ == k {
                    let i = choose|i: int| 0 <= i < out@.len() && #[trigger] out@[i]@ == k;
                    assert(holds_key(self.raw@, i, k));
                }
            }
            assert forall|i: int, j: int|
                0 <= i < out@.len() && 0 <= j < out@.len() && i != j implies #[trigger] out@[i]@ != #[trigger] out@[j]@ by {
                assert(out@[i] == self.raw@[i].0 && out@[j] == self.raw@[j].0);
            }
        }
        out
    }

    /// The stored entries.
    pub fn as_raw(&self) -> (r: &Vec<(StableTypeId, RawItem<C>)>)
        ensures
            r@ == self.entries(),
    {
        &self.raw
    }

    /// Gives up the map, returning its entries.
    pub fn into_raw(self) -> (r: Vec<(StableTypeId, RawItem<C>)>)
        ensures
            r@ == self.entries(),
    {
        self.raw
    }

    /// A map made of entries whose keys are distinct.
    pub fn from_raw(raw: Vec<(StableTypeId, RawItem<C>)>) -> (r: Self)
        requires
            keys_distinct(raw@),
        ensures
            r.wf(),
            r.entries() == raw@,
            r@ == entries_view(raw@),
    {
        SerializableAnyMap { raw }
    }

    /// Stores each of `values` under `key` in turn, each serialized with
    /// `store`; the last one stays.
    pub fn extend<S>(&mut self, key: &StableTypeId, values: Vec<C>, store: S) where
        S: Fn(&C) -> Value,

        requires
            old(self).wf(),
            forall|c: &C| #[trigger] store.requires((c,)),
        ensures
            final(self).wf(),
            values@.len() == 0 ==> final(self)@ == old(self)@,
            values@.len() > 0 ==> {
                &&& final(self)@.contains_key(key@)
                &&& final(self)@ == old(self)@.insert(key@, final(self)@[key@])
                &&& final(self)@[key@].cached == Some(values@.last())
                &&& store.ensures((&values@.last(),), final(self)@[key@].serialized)
            },
    {
        let ghost vs = values@;
        for v in iter: values
            invariant
                self.wf(),
                iter.seq() == vs,
                forall|c: &C| #[trigger] store.requires((c,)),
                iter.index() == 0 ==> self@ == old(self)@,
                iter.index() > 0 ==> {
                    &&& self@.contains_key(key@)
                    &&& self@ == old(self)@.insert(key@, self@[key@])
                    &&& self@[key@].cached == Some(vs[iter.index() - 1])
                    &&& store.ensures((&vs[iter.index() - 1],), self@[key@].serialized)
                },
        {
            self.insert(key.clone(), v, &store);
            proof {
                assert(self@ =~= old(self)@.insert(key@, self@[key@]));
            }
        }
    }

    /// Deserializes the value stored under `key` with `load` (unless that was
    /// done already) and writes its serialized form anew with `store`; a value
    /// that fails to deserialize is removed and the error returned. Returns
    /// where the entry is, if it is still there.
    fn refresh<L, S>(&mut self, key: &StableTypeId, load: L, store: S) -> (r: (
        Option<usize>,
        Option<DeserializerError>,
    )) where L: Fn(&Value) -> Result<C, DeserializerError>, S: Fn(&C) -> Value,
        requires
            old(self).wf(),
            forall|v: &Value| #[trigger] load.requires((v,)),
            forall|c: &C| #[trigger] store.requires((c,)),
        ensures
            final(self).wf(),
            entry_outcome(load, store, old(self)@, key@, final(self)@, r.1),
            match r.0 {
                Some(i) => {
                    &&& r.1 is None
                    &&& i < final(self).entries().len()
                    &&& final(self).entries()[i as int].0@ == key@
                    &&& final(self)@.contains_key(key@)
                    &&& final(self)@[key@] == final(self).entries()[i as int].1@
                },
                None => !final(self)@.contains_key(key@),
            },
    {
        match self.find(key) {
            None => (None, None),
            Some(i) => {
                let ghost s = self.raw@;
                let err = {
                    let item = &mut self.raw[i].1;
                    match item.load(load) {
                        Ok(_) => {
                            item.commit(store);
                            None
                        },
                        Err(e) => Some(e),
                    }
                };
                match err {
                    None => {
                        proof {
                            assert(self.raw@ == s.update(
                                i as int,
                                (s[i as int].0, self.raw@[i as int].1),
                            ));
                            lemma_entries_update(s, i as int, (s[i as int].0, self.raw@[i as int].1));
                            lemma_entries_at(self.raw@, i as int);
                        }
                        (Some(i), None)
                    },
                    Some(e) => {
                        proof {
                            assert(self.raw@ =~= s);
                            lemma_entries_remove(s, i as int);
                        }
                        self.raw.remove(i);
                        (None, Some(e))
                    },
                }
            },
        }
    }

    /// Entry API in the manner of `HashMap::entry`. If a value is stored under
    /// `key`, it is deserialized with `load` (unless that was done already) and
    /// its serialized form written anew with `store`; a value that fails to
    /// deserialize is removed, the entry is vacant, and the error is returned
    /// beside it.
    pub fn entry<'a, L, S>(&'a mut self, key: StableTypeId, load: L, store: S) -> (r: (
        Entry<'a, C>,
        Option<DeserializerError>,
    )) where L: Fn(&Value) -> Result<C, DeserializerError>, S: Fn(&C) -> Value,
        requires
            old(self).wf(),
            forall|v: &Value| #[trigger] load.requires((v,)),
            forall|c: &C| #[trigger] store.requires((c,)),
        ensures
            r.0.wf(),
            r.0.key() == key@,
            (r.0 is Occupied) == (*r.0.map_ref())@.contains_key(key@),
            *final(self) == *final(r.0.map_ref()),
            entry_outcome(load, store, old(self)@, key@, (*r.0.map_ref())@, r.1),
    {
        match self.refresh(&key, load, store) {
            (Some(i), err) => (Entry::Occupied(OccupiedEntry::new(self, i)), err),
            (None, err) => (Entry::Vacant(VacantEntry::new(self, key)), err),
        }
    }

    /// The value stored under `key`, deserialized with `load` unless that was
    /// done already; its serialized form is then written anew with `store`.
    /// A value that fails to deserialize is removed, and the error returned.
    pub fn get<'a, L, S>(&'a mut self, key: StableTypeId, load: L, store: S) -> (r: Option<
        Result<&'a C, DeserializerError>,
    >) where L: Fn(&Value) -> Result<C, DeserializerError>, S: Fn(&C) -> Value,
        requires
            old(self).wf(),
            forall|v: &Value| #[trigger] load.requires((v,)),
            forall|c: &C| #[trigger] store.requires((c,)),
        ensures
            final(self).wf(),
            match r {
                None => !old(self)@.contains_key(key@) && final(self)@ == old(self)@,
                Some(Err(e)) => {
                    &&& old(self)@.contains_key(key@)
                    &&& load_failed(load, old(self)@[key@], e)
                    &&& final(self)@ == old(self)@.remove(key@)
                },
                Some(Ok(c)) => {
                    &&& old(self)@.contains_key(key@)
                    &&& final(self)@.contains_key(key@)
                    &&& refreshed(load, store, old(self)@[key@], final(self)@[key@])
                    &&& final(self)@ == old(self)@.insert(key@, final(self)@[key@])
                    &&& final(self)@[key@].cached == Some(*c)
                },
            },
    {
        match self.refresh(&key, &load, &store) {
            (Some(i), _) => {
                let ghost s = self.raw@;
                let item = &mut self.raw[i].1;
                let ghost fin = *final(item);
                let r = item.get(&load, &store);
                proof {
                    lemma_entries_update(s, i as int, (s[i as int].0, fin));
                    lemma_entries_at(s.update(i as int, (s[i as int].0, fin)), i as int);
                    assert(s.update(i as int, (s[i as int].0, fin))[i as int] == (s[i as int].0, fin));
                }
                match r {
                    Ok(c) => Some(Ok(c)),
                    Err(e) => Some(Err(e)),
                }
            },
            (None, Some(e)) => Some(Err(e)),
            (None, None) => None,
        }
    }

    /// A guard over the value stored under `key`, deserialized with `load`
    /// unless that was done already (its serialized form is written anew with
    /// `store` first). A value that fails to deserialize is removed, and the
    /// error returned.
    pub fn get_mut<'a, L, S>(&'a mut self, key: StableTypeId, load: L, store: S) -> (r: Option<
        Result<WriteGuard<'a, C>, DeserializerError>,
    >) where L: Fn(&Value) -> Result<C, DeserializerError>, S: Fn(&C) -> Value,
        requires
            old(self).wf(),
            forall|v: &Value| #[trigger] load.requires((v,)),
            forall|c: &C| #[trigger] store.requires((c,)),
        ensures
            final(self).wf(),
            match r {
                None => !old(self)@.contains_key(key@) && final(self)@ == old(self)@,
                Some(Err(e)) => {
                    &&& old(self)@.contains_key(key@)
                    &&& load_failed(load, old(self)@[key@], e)
                    &&& final(self)@ == old(self)@.remove(key@)
                },
                Some(Ok(g)) => {
                    &&& old(self)@.contains_key(key@)
                    &&& refreshed(load, store, old(self)@[key@], (*g.target())@)
                    &&& final(self)@ == old(self)@.insert(key@, (*final(g.target()))@)
                },
            },
    {
        match self.refresh(&key, &load, &store) {
            (Some(i), _) => {
                let ghost s = self.raw@;
                let ghost m = self@;
                let item = &mut self.raw[i].1;
                let ghost fin = *final(item);
                let r = item.get_mut(&load);
                proof {
                    lemma_entries_update(s, i as int, (s[i as int].0, fin));
                    assert(m.insert(key@, fin@) =~= old(self)@.insert(key@, fin@));
                }
                match r {
                    Ok(g) => Some(Ok(g)),
                    Err(e) => Some(Err(e)),
                }
            },
            (None, Some(e)) => Some(Err(e)),
            (None, None) => None,
        }
    }

    /// Stores `value` under `key` (serialized with `store`) unless a value is
    /// stored there already, and returns a guard over it. If one is, nothing
    /// is stored, and the entry that holds it is returned together with
    /// `value`. A stored value that fails to deserialize with `load` counts as
    /// absent: it is removed and `value` stored.
    pub fn try_insert<'a, L, S>(&'a mut self, key: StableTypeId, value: C, load: L, store: S) -> (r: Result<
        WriteGuard<'a, C>,
        OccupiedError<'a, C>,
    >) where L: Fn(&Value) -> Result<C, DeserializerError>, S: Fn(&C) -> Value,
        requires
            old(self).wf(),
            forall|v: &Value| #[trigger] load.requires((v,)),
            forall|c: &C| #[trigger] store.requires((c,)),
        ensures
            match r {
                Ok(g) => {
                    &&& !old(self)@.contains_key(key@) || exists|e: DeserializerError|
                        load_failed(load, old(self)@[key@], e)
                    &&& (*g.target())@.cached == Some(value)
                    &&& store.ensures((&value,), (*g.target())@.serialized)
                    &&& final(self).wf()
                    &&& final(self)@ == old(self)@.insert(key@, (*final(g.target()))@)
                },
                Err(oe) => {
                    &&& old(self)@.contains_key(key@)
                    &&& oe.value == value
                    &&& oe.entry.wf()
                    &&& oe.entry.key() == key@
                    &&& refreshed(load, store, old(self)@[key@], oe.entry.item())
                    &&& (*oe.entry.map_ref())@ == old(self)@.insert(key@, oe.entry.item())
                    &&& *final(self) == *final(oe.entry.map_ref())
                },
            },
    {
        let ghost k = key@;
        let (en, err) = self.entry(key, &load, &store);
        match en {
            Entry::Occupied(entry) => Err(OccupiedError { entry, value }),
            Entry::Vacant(entry) => {
                let ghost m = (*entry.map_ref())@;
                proof {
                    if old(self)@.contains_key(k) {
                        assert(err is Some);
                        assert(load_failed(load, old(self)@[k], err->0));
                        assert(m == old(self)@.remove(k));
                    } else {
                        assert(m == old(self)@);
                    }
                }
                let g = entry.insert(value, &store);
                proof {
                    if old(self)@.contains_key(k) {
                        assert(old(self)@.remove(k).insert(k, (*final(g.target()))@) =~= old(
                            self,
                        )@.insert(k, (*final(g.target()))@));
                    }
                }
                Ok(g)
            },
        }
    }

    /// The serialized entries: each key with the serialized form stored under
    /// it. This is what a serialization of the map writes.
    pub fn serialized_entries(&self) -> (r: Vec<(StableTypeId, Value)>)
        ensures
            r@ == serialized_of(self.entries()),
    {
        let mut out: Vec<(StableTypeId, Value)> = Vec::new();
        let n = self.raw.len();
        for i in 0..n
            invariant
                n == self.raw@.len(),
                out@ == serialized_of(self.raw@).take(i as int),
        {
            let k = self.raw[i].0.clone();
            let v = clone_value(self.raw[i].1.serialized());
            out.push((k, v));
            proof {
                assert(serialized_of(self.raw@).take(i + 1) =~= serialized_of(self.raw@).take(
                    i as int,
                ).push((k, v)));
            }
        }
        proof {
            assert(serialized_of(self.raw@).take(n as int) =~= serialized_of(self.raw@));
        }
        out
    }

    /// The map that serialized entries stand for, as a deserialization of a
    /// map rebuilds it: no value is deserialized yet, and of two entries with
    /// the same key the later one stays.
    pub fn from_serialized_entries(entries: Vec<(StableTypeId, Value)>) -> (r: Self)
        ensures
            r.wf(),
            r@ == serialized_view::<C>(entries@),
    {
        let ghost es = entries@;
        let mut m = SerializableAnyMap::new();
        for e in iter: entries
            invariant
                iter.seq() == es,
                m.wf(),
                m@ == serialized_view::<C>(es.take(iter.index() as int)),
        {
            let (k, v) = e;
            m.insert_only_serialized(k, v);
            proof {
                assert(es.take(iter.index() + 1).drop_last() =~= es.take(iter.index() as int));
            }
        }
        proof {
            assert(es.take(es.len() as int) =~= es);
        }
        m
    }
}

impl<C> Clone for SerializableAnyMap<C> {
    /// Clones the serialized forms only: no deserialized value is cloned.
    fn clone(&self) -> (r: Self)
        ensures
            r.entries().len() == self.entries().len(),
            forall|i: int|
                0 <= i < self.entries().len() ==> #[trigger] r.entries()[i].0 == self.entries()[i].0
                    && r.entries()[i].1@ == without_cache(self.entries()[i].1@),
            self.wf() ==> r.wf() && r@ == without_caches(self@),
    {
        let mut out: Vec<(StableTypeId, RawItem<C>)> = Vec::new();
        let n = self.raw.len();
        for i in 0..n
            invariant
                n == self.raw@.len(),
                out@.len() == i,
                forall|j: int|
                    #![trigger out@[j]]
                    0 <= j < i ==> out@[j].0 == self.raw@[j].0 && out@[j].1@ == without_cache(
                        self.raw@[j].1@,
                    ),
        {
            let k = self.raw[i].0.clone();
            let it = self.raw[i].1.clone();
            out.push((k, it));
            assert(out@[i as int].0 == self.raw@[i as int].0 && out@[i as int].1@ == without_cache(
                self.raw@[i as int].1@,
            ));
        }
        proof {
            if keys_distinct(self.raw@) {
                lemma_entries_without_caches(self.raw@, out@);
            }
        }
        SerializableAnyMap { raw: out }
    }
}

impl<C> Default for SerializableAnyMap<C> {
    /// A new empty map.
    fn default() -> (r: Self)
        ensures
            r.wf(),
            r@ == Map::<Seq<char>, ItemView<C>>::empty(),
    {
        SerializableAnyMap::new()
    }
}

} // verus!
