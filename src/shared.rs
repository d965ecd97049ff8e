use std::sync::Arc;
use vstd::prelude::*;

verus! {

/// Relies on `Arc::clone`: the new pointer shares the allocation of the old
/// one, so it points at the same value.
#[verifier::external_body]
fn share<T>(a: &Arc<T>) -> (r: Arc<T>)
    ensures
        r == *a,
{
    Arc::clone(a)
}

/// A shared, reference-counted value with an identity of its own.
///
/// Derived assets are handed out this way: any number of consumers may hold
/// one while the registry keeps its own. Equality is by `id` alone.
#[derive(Debug)]
pub struct ArcHandle<T> {
    pub handle: Arc<T>,
    id: u64,
}

impl<T> ArcHandle<T> {
    /// The identity of this shared value.
    pub closed spec fn spec_id(&self) -> u64 {
        self.id
    }

    /// The value that is shared.
    pub closed spec fn value(&self) -> T {
        *self.handle
    }

    /// Wraps `handle` under the identity `id`.
    pub fn new(handle: T, id: u64) -> (r: Self)
        ensures
            r.spec_id() == id,
            r.value() == handle,
    {
        ArcHandle { handle: Arc::new(handle), id }
    }

    #[verifier::when_used_as_spec(spec_id)]
    pub fn id(&self) -> (r: u64)
        ensures
            r == self.spec_id(),
    {
        self.id
    }
}

impl<T> Clone for ArcHandle<T> {
    fn clone(&self) -> (r: Self)
        ensures
            r == *self,
    {
        ArcHandle { handle: share(&self.handle), id: self.id }
    }
}

impl<T> PartialEq for ArcHandle<T> {
    fn eq(&self, other: &Self) -> (r: bool) {
        self.id == other.id
    }
}

impl<T> vstd::std_specs::cmp::PartialEqSpecImpl for ArcHandle<T> {
    open spec fn obeys_eq_spec() -> bool {
        true
    }

    open spec fn eq_spec(&self, other: &Self) -> bool {
        self.spec_id() == other.spec_id()
    }
}

impl<T> Eq for ArcHandle<T> {

}

impl<T> core::hash::Hash for ArcHandle<T> {
    fn hash<H: core::hash::Hasher>(&self, state: &mut H) {
        self.id.hash(state);
    }
}

impl<T> core::ops::Deref for ArcHandle<T> {
    type Target = T;

    fn deref(&self) -> (r: &T)
        ensures
            *r == self.value(),
    {
        &*self.handle
    }
}

impl<T> AsRef<T> for ArcHandle<T> {
    fn as_ref(&self) -> (r: &T)
        ensures
            *r == self.value(),
    {
        &*self.handle
    }
}

} // verus!
