//! A value that is either owned alone or shared without being copied.

use std::sync::Arc;
use vstd::prelude::*;

verus! {

/// A value that is never changed in place: owned by one holder, or shared by
/// reference count among several. Which of the two is chosen when it is made.
#[derive(Clone, Debug)]
pub enum Immutable<T> {
    /// Held by this holder alone.
    Owned(T),
    /// Shared with other holders.
    Arc(Arc<T>),
}

impl<T> Immutable<T> {
    /// The value held, whichever way it is held.
    pub open spec fn inner(self) -> T {
        match self {
            Immutable::Owned(v) => v,
            Immutable::Arc(v) => *v,
        }
    }

    /// The value held, borrowed.
    pub fn get_inner(&self) -> (r: &T)
        ensures
            *r == self.inner(),
    {
        match self {
            Immutable::Owned(v) => v,
            Immutable::Arc(v) => &**v,
        }
    }

    /// The value as a shared one. A value owned alone is moved into a new
    /// shared holder; a shared one is handed on as it is.
    pub fn to_arc(self) -> (r: Arc<T>)
        ensures
            *r == self.inner(),
    {
        match self {
            Immutable::Owned(v) => Arc::new(v),
            Immutable::Arc(v) => v,
        }
    }
}

} // verus!
