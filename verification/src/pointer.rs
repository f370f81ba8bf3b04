//! A shared, reference-counted handle to a scene value.
//!
//! Scene nodes, primitives and materials are built once and then shared:
//! by the node graph while the scene is assembled, and by every render
//! worker afterwards.

use std::sync::Arc;

use vstd::prelude::*;

verus! {

/// A reference-counted pointer to a shared scene value.
pub struct Pointer<T>(Arc<T>);

impl<T> Pointer<T> {
    /// The value the pointer shares.
    pub closed spec fn value(self) -> T {
        *self.0
    }

    /// Move a value behind a new shared pointer.
    pub fn new(value: T) -> (p: Pointer<T>)
        ensures
            p.value() == value,
    {
        Pointer(Arc::new(value))
    }

    /// Borrow the shared value.
    pub fn get(&self) -> (r: &T)
        ensures
            *r == self.value(),
    {
        &self.0
    }
}

impl<T> Clone for Pointer<T> {
    /// Share the same value under one more handle.
    fn clone(&self) -> (r: Self)
        ensures
            r.value() == self.value(),
    {
        Pointer(Arc::clone(&self.0))
    }
}

} // verus!
