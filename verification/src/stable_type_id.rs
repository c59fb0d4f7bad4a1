//! The key under which a type's value is stored.

use vstd::prelude::*;

verus! {

/// An opaque holder for a stable, deterministic identifier for a Rust type:
/// the fully qualified name of the type.
#[derive(Debug, Eq, PartialOrd, Ord, Hash)]
pub struct StableTypeId(String);

impl View for StableTypeId {
    type V = Seq<char>;

    closed spec fn view(&self) -> Seq<char> {
        self.0@
    }
}

impl PartialEq for StableTypeId {
    fn eq(&self, other: &Self) -> (r: bool) {
        self.0 == other.0
    }
}

impl vstd::std_specs::cmp::PartialEqSpecImpl for StableTypeId {
    open spec fn obeys_eq_spec() -> bool {
        true
    }

    open spec fn eq_spec(&self, other: &Self) -> bool {
        self@ == other@
    }
}

impl Clone for StableTypeId {
    fn clone(&self) -> (r: Self)
        ensures
            r == *self,
    {
        StableTypeId(self.0.clone())
    }
}

impl StableTypeId {
    /// The key that stands for the type named `name`.
    pub fn from_name(name: String) -> (r: StableTypeId)
        ensures
            r@ == name@,
    {
        StableTypeId(name)
    }

    /// The type name, as a string.
    pub fn to_string(&self) -> (r: String)
        ensures
            r@ == self@,
    {
        self.0.clone()
    }

    /// Gives up the key, returning the type name.
    pub fn into_name(self) -> (r: String)
        ensures
            r@ == self@,
    {
        self.0
    }

    /// Whether two keys name the same type.
    pub fn same(&self, other: &StableTypeId) -> (r: bool)
        ensures
            r == (self@ == other@),
    {
        self.0 == other.0
    }
}

} // verus!
