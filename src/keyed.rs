//! The capability that an element must have to be stored by its own key.
use vstd::prelude::*;

verus! {

/// An element that can name the key it is stored under.
pub trait BTreeVector<K> {
    /// The key of this element: a pure function of the element.
    spec fn key_of(&self) -> K;

    /// Computes the key of this element.
    fn key(&self) -> (k: K)
        ensures
            k == self.key_of(),
    ;
}

} // verus!
