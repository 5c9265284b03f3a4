//! Values attached to a request, at most one of each type.
use std::any::{Any, TypeId};
use std::collections::HashMap;
use vstd::prelude::*;

verus! {

/// A map from a type to one value of that type. Verus does not accept its
/// field (`dyn Any` keyed by `TypeId`), so the struct is opaque to it.
#[verifier::external_body]
pub struct Extensions {
    map: HashMap<TypeId, Box<dyn Any + Send + Sync>>,
}

/// How many values an `Extensions` holds (the length of its map).
pub uninterp spec fn extension_count(e: Extensions) -> nat;

impl Extensions {
    /// Calls `HashMap::new`: the map starts empty.
    #[verifier::external_body]
    pub fn new() -> (r: Self)
        ensures
            extension_count(r) == 0,
    {
        Self { map: HashMap::new() }
    }

    /// Calls `HashMap::insert` under `TypeId::of::<T>()` and gives back the
    /// value of type `T` that was there. The contract states only that the
    /// count grows by one exactly when there was none; that the value is
    /// the one that `get::<T>` then gives is not stated, since a contract
    /// cannot name a type's entry here.
    #[verifier::external_body]
    pub fn insert<T: Send + Sync + 'static>(&mut self, val: T) -> (r: Option<T>)
        ensures
            r is None ==> extension_count(*final(self)) == extension_count(*old(self)) + 1,
            r is Some ==> extension_count(*final(self)) == extension_count(*old(self)),
    {
        self.map.insert(TypeId::of::<T>(), Box::new(val)).and_then(
            |boxed| boxed.downcast::<T>().ok().map(|boxed| *boxed),
        )
    }

    /// Calls `HashMap::get` under `TypeId::of::<T>()` and downcasts the
    /// value. An empty map gives `None`; of a non-empty one nothing is stated.
    #[verifier::external_body]
    pub fn get<T: 'static>(&self) -> (r: Option<&T>)
        ensures
            extension_count(*self) == 0 ==> r is None,
    {
        self.map.get(&TypeId::of::<T>()).and_then(|boxed| boxed.downcast_ref::<T>())
    }

    /// Calls `HashMap::get_mut` under `TypeId::of::<T>()` and downcasts the
    /// value. The count is unchanged; nothing else is stated.
    #[verifier::external_body]
    pub fn get_mut<T: 'static>(&mut self) -> (r: Option<&mut T>)
        ensures
            extension_count(*final(self)) == extension_count(*old(self)),
    {
        self.map.get_mut(&TypeId::of::<T>()).and_then(|boxed| boxed.downcast_mut::<T>())
    }
}

} // verus!
