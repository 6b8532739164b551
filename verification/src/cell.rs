use vstd::prelude::*;

use std::sync::Arc;

verus! {

/// Reference-counted handle around a tree node, the copy-on-write boundary of
/// the collection engines. Cloning the cell copies the handle and bumps the
/// holder count without touching node contents, so distinct collection
/// versions share every unmodified node; the atomically counted handle is safe
/// to share across threads. A shared node is never mutated in place: a writer
/// duplicates the node's contents into a fresh cell and re-points its own
/// handle, so every other holder keeps observing the old, complete node.
pub struct OwnershipCell<A> {
    node: Arc<A>,
}

impl<A> View for OwnershipCell<A> {
    type V = A;

    closed spec fn view(&self) -> A {
        *self.node
    }
}

impl<A> OwnershipCell<A> {
    pub fn new(value: A) -> (r: Self)
        ensures
            r@ == value,
    {
        OwnershipCell { node: Arc::new(value) }
    }

    /// Shared read access to the node; always succeeds.
    pub fn get(&self) -> (r: &A)
        ensures
            *r == self@,
    {
        &*self.node
    }

    /// The number of live handles on this node. Relies on
    /// `std::sync::Arc::strong_count`: it returns the number of strong
    /// pointers to the allocation, which is at least this one. The count can
    /// change at any time under concurrent cloning, so nothing more is
    /// promised of it.
    #[verifier::external_body]
    pub fn holders(&self) -> (r: usize)
        ensures
            r >= 1,
    {
        Arc::strong_count(&self.node)
    }
}

impl<A> Clone for OwnershipCell<A> {
    /// O(1): copies the handle and increments the holder count; both handles
    /// denote the very same node.
    fn clone(&self) -> (r: Self)
        ensures
            r == *self,
    {
        OwnershipCell { node: self.node.clone() }
    }
}

} // verus!
