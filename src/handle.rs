use core::marker::PhantomData;
use vstd::prelude::*;

verus! {

/// Identity of one asset in a registry.
///
/// A handle is an id together with the asset's type as a compile-time tag.
/// It owns nothing: it is a lookup key. Two handles are equal when their ids
/// are equal; the type tag is never consulted.
#[derive(Debug)]
pub struct AssetHandle<T> {
    id: u64,
    ty: PhantomData<T>,
}

impl<T> AssetHandle<T> {
    /// The id that this handle stands for.
    pub closed spec fn spec_id(&self) -> u64 {
        self.id
    }

    /// A handle for `id`. Ids are handed out by the registry, which never
    /// hands out one twice.
    pub(crate) fn new(id: u64) -> (r: Self)
        ensures
            r.spec_id() == id,
    {
        AssetHandle { id, ty: PhantomData }
    }

    #[verifier::when_used_as_spec(spec_id)]
    pub fn id(&self) -> (r: u64)
        ensures
            r == self.spec_id(),
    {
        self.id
    }

    /// The same id under another type tag: used to erase the tag for storage,
    /// or to put it back.
    pub fn clone_typed<G>(&self) -> (r: AssetHandle<G>)
        ensures
            r.spec_id() == self.spec_id(),
    {
        AssetHandle { id: self.id, ty: PhantomData }
    }
}

impl<T> Clone for AssetHandle<T> {
    fn clone(&self) -> (r: Self)
        ensures
            r.spec_id() == self.spec_id(),
    {
        AssetHandle { id: self.id, ty: PhantomData }
    }
}

impl<T> Copy for AssetHandle<T> {

}

impl<T> PartialEq for AssetHandle<T> {
    fn eq(&self, other: &Self) -> (r: bool) {
        self.id == other.id
    }
}

impl<T> vstd::std_specs::cmp::PartialEqSpecImpl for AssetHandle<T> {
    open spec fn obeys_eq_spec() -> bool {
        true
    }

    open spec fn eq_spec(&self, other: &Self) -> bool {
        self.spec_id() == other.spec_id()
    }
}

impl<T> Eq for AssetHandle<T> {

}

/// Relies on `u64`'s `Hash`: it feeds the integer to the hasher. Nothing is
/// claimed of what the hasher then holds.
pub assume_specification<H: core::hash::Hasher>[ <u64 as core::hash::Hash>::hash::<H> ](
    v: &u64,
    state: &mut H,
);

impl<T> core::hash::Hash for AssetHandle<T> {
    fn hash<H: core::hash::Hasher>(&self, state: &mut H) {
        self.id.hash(state);
    }
}

} // verus!
