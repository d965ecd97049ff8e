use crate::handle::AssetHandle;
use crate::shared::ArcHandle;
use std::collections::hash_map::Entry;
use std::collections::HashMap;
use vstd::hash_map::StringHashMap;
use vstd::prelude::*;

verus! {

broadcast use vstd::std_specs::hash::group_hash_axioms;

/// A value that can be kept in the registry.
pub trait Asset {

}

/// An asset that can be built from the file at a path.
pub trait LoadableAsset: Sized {
    /// `r` is a value that loading the file at `path` can give. A type
    /// whose loading is verified states it; by default nothing is known.
    open spec fn loaded_from(path: Seq<char>, r: Self) -> bool {
        true
    }

    fn load(path: &str) -> (r: Self)
        ensures
            Self::loaded_from(path@, r),
    ;
}

/// An asset that can be saved to the file at a path.
pub trait WriteableAsset: Sized {
    /// Saving `before` to `path` can leave the value as `after`. A type
    /// whose saving is verified states it; by default nothing is known.
    open spec fn written(before: Self, path: Seq<char>, after: Self) -> bool {
        true
    }

    fn write(&mut self, path: &str)
        ensures
            Self::written(*old(self), path@, *final(self)),
    ;
}

/// A value derived from an asset, such as its render-ready form.
pub trait RenderAsset {

}

/// A derived asset that is computed from one source asset and parameters.
pub trait ConvertableRenderAsset: RenderAsset + Sized {
    type SourceAsset: Asset;

    type Params;

    /// `r` is a value that converting `source` with `params` can give. A
    /// type whose conversion is verified states it; by default nothing is
    /// known.
    open spec fn converted(source: Self::SourceAsset, params: Self::Params, r: Self) -> bool {
        true
    }

    fn convert(source: &Self::SourceAsset, params: &Self::Params) -> (r: Self)
        ensures
            Self::converted(*source, *params, r),
    ;
}

/// What the store holds for one handle.
pub enum Slot<A> {
    /// A background load was started and has not been delivered yet.
    Pending,
    /// The current value.
    Ready(A),
}

/// The abstract state of a registry.
pub struct AssetsView<A, R> {
    /// Handle id to stored value.
    pub store: Map<u64, Slot<A>>,
    /// Source handle id to its memoized derived asset.
    pub derived: Map<u64, ArcHandle<R>>,
    /// Handle id to the path that write-back saves it to.
    pub write_paths: Map<u64, Seq<char>>,
    /// Ids mutated since the last write-back, in the order first mutated.
    pub dirty: Seq<u64>,
    /// Watched path to the handle id that its changes reload.
    pub watches: Map<Seq<char>, u64>,
    /// Change notifications not yet handled, oldest first.
    pub reloads: Seq<Seq<char>>,
    /// The id the next new handle gets; all lower ids were handed out.
    pub next_id: u64,
    /// The identity the next derived asset gets.
    pub next_derived_id: u64,
}

impl<A, R> AssetsView<A, R> {
    /// The registry handed out `id`.
    pub open spec fn issued(self, id: u64) -> bool {
        id < self.next_id
    }

    /// A value is stored for `id` (not absent, not pending).
    pub open spec fn is_ready(self, id: u64) -> bool {
        self.store.contains_key(id) && self.store[id] is Ready
    }

    /// The value stored for `id`, meaningful where `is_ready(id)`.
    pub open spec fn value_of(self, id: u64) -> A {
        self.store[id]->Ready_0
    }

    /// This state with `a` stored under `id`.
    pub open spec fn with_ready(self, id: u64, a: A) -> Self {
        AssetsView { store: self.store.insert(id, Slot::Ready(a)), ..self }
    }

    /// This state after a mutable access to `id`: its derived asset is
    /// dropped and it is marked dirty.
    pub open spec fn touched(self, id: u64) -> Self {
        AssetsView { derived: self.derived.remove(id), dirty: marked(self.dirty, id), ..self }
    }

    /// This state after a new handle is handed out for `slot`, with `path`
    /// watched for changes and bound for write-back as asked.
    pub open spec fn added(self, slot: Slot<A>, path: Seq<char>, watch: bool, write: bool) -> Self {
        let id = self.next_id;
        AssetsView {
            store: self.store.insert(id, slot),
            watches: if watch {
                self.watches.insert(path, id)
            } else {
                self.watches
            },
            write_paths: if write {
                self.write_paths.insert(id, path)
            } else {
                self.write_paths
            },
            next_id: (id + 1) as u64,
            ..self
        }
    }

    /// This state with `d` memoized as the derived asset of `id`.
    pub open spec fn memoized(self, id: u64, d: ArcHandle<R>) -> Self {
        AssetsView {
            derived: self.derived.insert(id, d),
            next_derived_id: (self.next_derived_id + 1) as u64,
            ..self
        }
    }

    /// `r` and `after` are what `convert` on `id` gives from this state: the
    /// memoized asset where there is one; else a newly derived one, under a
    /// new identity, where a value is stored; else nothing.
    pub open spec fn converts(self, id: u64, r: Option<ArcHandle<R>>, after: Self) -> bool {
        if self.derived.contains_key(id) {
            r == Some(self.derived[id]) && after == self
        } else if self.is_ready(id) {
            &&& r is Some
            &&& r.unwrap().spec_id() == self.next_derived_id
            &&& after == self.memoized(id, r.unwrap())
        } else {
            r is None && after == self
        }
    }

    /// This state with `a` delivered as the new value of `id`: it replaces
    /// what was stored, and the derived asset of `id` is dropped.
    pub open spec fn replaced(self, id: u64, a: A) -> Self {
        AssetsView {
            store: self.store.insert(id, Slot::Ready(a)),
            derived: self.derived.remove(id),
            ..self
        }
    }

    /// This state after the values of `batch` are delivered in order; where
    /// one handle comes twice, the later value wins.
    pub open spec fn loaded(self, batch: Seq<(AssetHandle<A>, A)>) -> Self
        decreases batch.len(),
    {
        if batch.len() == 0 {
            self
        } else {
            self.loaded(batch.drop_last()).replaced(batch.last().0.spec_id(), batch.last().1)
        }
    }

    /// The ids of `ids`, in order, that write-back saves: those bound to a
    /// path whose value is stored.
    pub open spec fn write_targets(self, ids: Seq<u64>) -> Seq<u64>
        decreases ids.len(),
    {
        if ids.len() == 0 {
            ids
        } else {
            let rest = self.write_targets(ids.drop_last());
            if self.write_paths.contains_key(ids.last()) && self.is_ready(ids.last()) {
                rest.push(ids.last())
            } else {
                rest
            }
        }
    }

    /// The ids, in order, that the change notifications `paths` reload: for
    /// each watched path, the handle bound to it.
    pub open spec fn reload_targets(self, paths: Seq<Seq<char>>) -> Seq<u64>
        decreases paths.len(),
    {
        if paths.len() == 0 {
            Seq::empty()
        } else {
            let rest = self.reload_targets(paths.drop_last());
            if self.watches.contains_key(paths.last()) {
                rest.push(self.watches[paths.last()])
            } else {
                rest
            }
        }
    }

    /// The last path of `paths` that is bound to `id`: the one whose load
    /// gives `id` its value when `paths` are handled in order.
    pub open spec fn reload_source(self, paths: Seq<Seq<char>>, id: u64) -> Option<Seq<char>>
        decreases paths.len(),
    {
        if paths.len() == 0 {
            None
        } else if self.watches.contains_key(paths.last()) && self.watches[paths.last()] == id {
            Some(paths.last())
        } else {
            self.reload_source(paths.drop_last(), id)
        }
    }

    /// What every registry keeps true: stored ids were handed out; a derived
    /// asset exists only for a stored value and has an identity already
    /// handed out; bindings name stored ids; the dirty set has no repeats and
    /// holds only ids handed out.
    pub open spec fn wf(self) -> bool {
        &&& forall|id: u64| #[trigger] self.store.contains_key(id) ==> self.issued(id)
        &&& forall|id: u64| #[trigger]
            self.derived.contains_key(id) ==> self.is_ready(id) && self.derived[id].spec_id()
                < self.next_derived_id
        &&& forall|id: u64| #[trigger]
            self.write_paths.contains_key(id) ==> self.store.contains_key(id)
        &&& forall|p: Seq<char>| #[trigger]
            self.watches.contains_key(p) ==> self.store.contains_key(self.watches[p])
        &&& self.dirty.no_duplicates()
        &&& forall|i: int| 0 <= i < self.dirty.len() ==> self.issued(#[trigger] self.dirty[i])
    }
}

/// The registry: owns every asset and the bookkeeping around it.
///
/// A registry holds assets of one type `A` and derived assets of one type
/// `R`: values are stored as themselves, with no run-time type erasure, so
/// every access is checked by the compiler. An application with several kinds
/// of asset uses an enum of them as `A`, or one registry per kind; ids are
/// counted per registry.
pub struct Assets<A, R> {
    cache: HashMap<u64, Slot<A>>,
    render_cache: HashMap<u64, ArcHandle<R>>,
    write_paths: HashMap<u64, String>,
    dirty: Vec<u64>,
    watches: StringHashMap<u64>,
    reloads: Vec<String>,
    next_id: u64,
    next_derived_id: u64,
}

impl<A, R> View for Assets<A, R> {
    type V = AssetsView<A, R>;

    closed spec fn view(&self) -> AssetsView<A, R> {
        AssetsView {
            store: self.cache@,
            derived: self.render_cache@,
            write_paths: self.write_paths@.map_values(|p: String| p@),
            dirty: self.dirty@,
            watches: self.watches@,
            reloads: self.reloads@.map_values(|p: String| p@),
            next_id: self.next_id,
            next_derived_id: self.next_derived_id,
        }
    }
}

/// `m` without the keys in `ids`.
pub open spec fn without<V>(m: Map<u64, V>, ids: Seq<u64>) -> Map<u64, V>
    decreases ids.len(),
{
    if ids.len() == 0 {
        m
    } else {
        without(m, ids.drop_last()).remove(ids.last())
    }
}

/// `dirty` with `id` added at the end, unless it is already there.
pub open spec fn marked(dirty: Seq<u64>, id: u64) -> Seq<u64> {
    if dirty.contains(id) {
        dirty
    } else {
        dirty.push(id)
    }
}

/// Appending an id that is not there keeps a sequence free of repeats.
proof fn lemma_push_fresh(s: Seq<u64>, id: u64)
    requires
        s.no_duplicates(),
        !s.contains(id),
    ensures
        s.push(id).no_duplicates(),
{
    assert forall|i: int, j: int|
        0 <= i < s.push(id).len() && 0 <= j < s.push(id).len() && i != j implies s.push(id)[i]
        != s.push(id)[j] by {
        if i < s.len() && j < s.len() {
        } else if i < s.len() {
            assert(s.contains(s[i]));
        } else {
            assert(s.contains(s[j]));
        }
    }
}

/// Replacing the value of a stored id keeps the registry well formed.
proof fn lemma_replace_keeps_wf<A, R>(v: AssetsView<A, R>, id: u64)
    requires
        v.wf(),
    ensures
        forall|a: A| v.store.contains_key(id) ==> (#[trigger] v.with_ready(id, a)).wf(),
{
    assert forall|a: A| v.store.contains_key(id) implies (#[trigger] v.with_ready(id, a)).wf() by {
        assert(v.with_ready(id, a).store.dom() =~= v.store.dom());
    }
}

/// Storing under the next id keeps the registry well formed.
proof fn lemma_fresh_keeps_wf<A, R>(v: AssetsView<A, R>, slot: Slot<A>)
    requires
        v.wf(),
        v.next_id < u64::MAX,
    ensures
        v.added(slot, Seq::empty(), false, false).wf(),
{
    let w = v.added(slot, Seq::empty(), false, false);
    assert forall|id: u64| #[trigger] w.store.contains_key(id) implies w.issued(id) by {
        if id != v.next_id {
            assert(v.store.contains_key(id));
        }
    }
    assert forall|id: u64| #[trigger] w.derived.contains_key(id) implies w.is_ready(id) by {
        assert(v.is_ready(id));
    }
}

/// Memoizing a derived asset under a new identity keeps the registry well
/// formed.
proof fn lemma_memoize_keeps_wf<A, R>(v: AssetsView<A, R>, id: u64, d: ArcHandle<R>)
    requires
        v.wf(),
        v.is_ready(id),
        d.spec_id() == v.next_derived_id,
        v.next_derived_id < u64::MAX,
    ensures
        v.memoized(id, d).wf(),
{
    let w = v.memoized(id, d);
    assert forall|k: u64| #[trigger] w.derived.contains_key(k) implies w.is_ready(k)
        && w.derived[k].spec_id() < w.next_derived_id by {
        if k != id {
            assert(v.derived.contains_key(k));
        }
    }
}

/// Delivering a value for a handed-out id keeps the registry well formed.
proof fn lemma_replace_delivered_keeps_wf<A, R>(v: AssetsView<A, R>, id: u64, a: A)
    requires
        v.wf(),
        v.issued(id),
    ensures
        v.replaced(id, a).wf(),
{
    let w = v.replaced(id, a);
    assert forall|k: u64| #[trigger] w.store.contains_key(k) implies w.issued(k) by {
        if k != id {
            assert(v.store.contains_key(k));
        }
    }
    assert forall|k: u64| #[trigger] w.derived.contains_key(k) implies w.is_ready(k)
        && w.derived[k].spec_id() < w.next_derived_id by {
        assert(v.derived.contains_key(k));
    }
    assert forall|k: u64| #[trigger] w.write_paths.contains_key(k) implies w.store.contains_key(
        k,
    ) by {
        assert(v.store.contains_key(k));
    }
    assert forall|p: Seq<char>| #[trigger] w.watches.contains_key(p) implies w.store.contains_key(
        w.watches[p],
    ) by {
        assert(v.store.contains_key(v.watches[p]));
    }
}

/// An id is a write target of `ids` only if it is in `ids`.
proof fn lemma_write_targets_within<A, R>(v: AssetsView<A, R>, ids: Seq<u64>, id: u64)
    requires
        v.write_targets(ids).contains(id),
    ensures
        ids.contains(id),
    decreases ids.len(),
{
    let rest = v.write_targets(ids.drop_last());
    if rest.contains(id) {
        lemma_write_targets_within(v, ids.drop_last(), id);
        let j = choose|j: int| 0 <= j < ids.drop_last().len() && ids.drop_last()[j] == id;
        assert(ids[j] == id);
    } else {
        assert(id == ids.last());
        assert(ids[ids.len() - 1] == id);
    }
}

/// An id of `ids` is a write target exactly when it is bound to a path and
/// its value is stored.
pub(crate) proof fn lemma_write_targets_exact<A, R>(v: AssetsView<A, R>, ids: Seq<u64>, id: u64)
    requires
        ids.contains(id),
    ensures
        v.write_targets(ids).contains(id) <==> v.write_paths.contains_key(id) && v.is_ready(id),
    decreases ids.len(),
{
    let rest = v.write_targets(ids.drop_last());
    let j = choose|j: int| 0 <= j < ids.len() && ids[j] == id;
    if j < ids.len() - 1 {
        assert(ids.drop_last()[j] == id);
        lemma_write_targets_exact(v, ids.drop_last(), id);
    } else {
        assert(ids.last() == id);
        if ids.drop_last().contains(id) {
            lemma_write_targets_exact(v, ids.drop_last(), id);
        }
    }
    if v.write_paths.contains_key(ids.last()) && v.is_ready(ids.last()) {
        assert(v.write_targets(ids) == rest.push(ids.last()));
        if rest.contains(id) {
            let k = choose|k: int| 0 <= k < rest.len() && rest[k] == id;
            assert(rest.push(ids.last())[k] == id);
        }
        if id == ids.last() {
            assert(rest.push(ids.last())[rest.len() as int] == id);
        }
        if rest.push(ids.last()).contains(id) && id != ids.last() {
            let k = choose|k: int| 0 <= k < rest.len() + 1 && rest.push(ids.last())[k] == id;
            assert(rest[k] == id);
        }
        if !ids.drop_last().contains(id) {
            assert(id == ids.last());
        }
    } else {
        if !ids.drop_last().contains(id) {
            assert(id == ids.last());
            lemma_not_target(v, ids.drop_last(), id);
        }
    }
}

/// An id that is not bound to a path, or has no stored value, is never a
/// write target.
proof fn lemma_not_target<A, R>(v: AssetsView<A, R>, ids: Seq<u64>, id: u64)
    requires
        !(v.write_paths.contains_key(id) && v.is_ready(id)),
    ensures
        !v.write_targets(ids).contains(id),
    decreases ids.len(),
{
    if ids.len() > 0 {
        lemma_not_target(v, ids.drop_last(), id);
        let rest = v.write_targets(ids.drop_last());
        if v.write_paths.contains_key(ids.last()) && v.is_ready(ids.last()) {
            if rest.push(ids.last()).contains(id) {
                let k = choose|k: int| 0 <= k < rest.len() + 1 && rest.push(ids.last())[k] == id;
                assert(rest[k] == id);
            }
        }
    }
}

/// What an appended sequence contains.
proof fn lemma_push_contains(s: Seq<u64>, x: u64, k: u64)
    ensures
        s.push(x).contains(k) <==> s.contains(k) || k == x,
{
    if s.contains(k) {
        let j = choose|j: int| 0 <= j < s.len() && s[j] == k;
        assert(s.push(x)[j] == k);
    }
    if k == x {
        assert(s.push(x)[s.len() as int] == k);
    }
    if s.push(x).contains(k) && k != x {
        let j = choose|j: int| 0 <= j < s.push(x).len() && s.push(x)[j] == k;
        assert(s[j] == k);
    }
}

/// Whether `id` occurs in `ids`.
fn contains_id(ids: &Vec<u64>, id: u64) -> (r: bool)
    ensures
        r == ids@.contains(id),
{
    let mut i: usize = 0;
    while i < ids.len()
        invariant
            i <= ids.len(),
            forall|j: int| 0 <= j < i ==> ids@[j] != id,
        decreases ids.len() - i,
    {
        if ids[i] == id {
            return true;
        }
        i = i + 1;
    }
    false
}

/// Mutable access to the value stored under `id`, if one is ready.
fn ready_mut<A>(cache: &mut HashMap<u64, Slot<A>>, id: u64) -> (r: Option<&mut A>)
    ensures
        match r {
            Some(x) => {
                &&& old(cache)@.contains_key(id)
                &&& old(cache)@[id] == Slot::Ready(*x)
                &&& final(cache)@ == old(cache)@.insert(id, Slot::Ready(*final(x)))
            },
            None => {
                &&& !(old(cache)@.contains_key(id) && old(cache)@[id] is Ready)
                &&& final(cache)@ == old(cache)@
            },
        },
{
    match cache.entry(id) {
        Entry::Occupied(e) => match e.into_mut() {
            Slot::Ready(x) => Some(x),
            Slot::Pending => None,
        },
        Entry::Vacant(_) => {
            proof {
                assert(old(cache)@.remove(id) =~= old(cache)@);
            }
            None
        },
    }
}

impl<A: Asset, R: RenderAsset> Assets<A, R> {
    /// The registry is well formed; every operation keeps it so.
    pub open spec fn wf(&self) -> bool {
        self@.wf()
    }

    /// An empty registry.
    pub fn new() -> (r: Self)
        ensures
            r.wf(),
            r@.store == Map::<u64, Slot<A>>::empty(),
            r@.derived == Map::<u64, ArcHandle<R>>::empty(),
            r@.write_paths == Map::<u64, Seq<char>>::empty(),
            r@.dirty == Seq::<u64>::empty(),
            r@.watches == Map::<Seq<char>, u64>::empty(),
            r@.reloads == Seq::<Seq<char>>::empty(),
            r@.next_id == 0,
            r@.next_derived_id == 0,
    {
        let r = Assets {
            cache: HashMap::new(),
            render_cache: HashMap::new(),
            write_paths: HashMap::new(),
            dirty: Vec::new(),
            watches: StringHashMap::new(),
            reloads: Vec::new(),
            next_id: 0,
            next_derived_id: 0,
        };
        proof {
            assert(r@.write_paths =~= Map::<u64, Seq<char>>::empty());
            assert(r@.reloads =~= Seq::<Seq<char>>::empty());
        }
        r
    }

    /// Whether `handle` was handed out by this registry.
    pub fn issued<T>(&self, handle: &AssetHandle<T>) -> (r: bool)
        ensures
            r == self@.issued(handle.spec_id()),
    {
        handle.id() < self.next_id
    }

    /// Whether a new handle can still be handed out.
    pub fn has_free_id(&self) -> (r: bool)
        ensures
            r == (self@.next_id < u64::MAX),
    {
        self.next_id < u64::MAX
    }

    /// Whether a new derived asset can still get an identity of its own.
    pub fn has_free_derived_id(&self) -> (r: bool)
        ensures
            r == (self@.next_derived_id < u64::MAX),
    {
        self.next_derived_id < u64::MAX
    }

    /// Stores `data` under a new handle.
    pub fn insert(&mut self, data: A) -> (r: AssetHandle<A>)
        requires
            old(self).wf(),
            old(self)@.next_id < u64::MAX,
        ensures
            final(self).wf(),
            r.spec_id() == old(self)@.next_id,
            !old(self)@.dirty.contains(r.spec_id()),
            !old(self)@.store.contains_key(r.spec_id()),
            final(self)@ == (AssetsView {
                store: old(self)@.store.insert(r.spec_id(), Slot::Ready(data)),
                next_id: (old(self)@.next_id + 1) as u64,
                ..old(self)@
            }),
    {
        let handle = AssetHandle::<A>::new(self.next_id);
        self.next_id = self.next_id + 1;
        self.cache.insert(handle.id(), Slot::Ready(data));
        handle
    }

    /// The value stored for `handle`; nothing while it is absent or pending.
    pub fn get(&self, handle: AssetHandle<A>) -> (r: Option<&A>)
        ensures
            r.is_some() == self@.is_ready(handle.spec_id()),
            r.is_some() ==> *r.unwrap() == self@.value_of(handle.spec_id()),
    {
        match self.cache.get(&handle.id()) {
            Some(Slot::Ready(x)) => Some(x),
            _ => None,
        }
    }

    /// Mutable access to the value stored for `handle`.
    ///
    /// Whatever it returns, the handle counts as mutated: its derived asset is
    /// dropped and it joins the dirty set for the next write-back. The handle
    /// must come from this registry (see `issued`).
    pub fn get_mut(&mut self, handle: AssetHandle<A>) -> (r: Option<&mut A>)
        requires
            old(self).wf(),
            old(self)@.issued(handle.spec_id()),
        ensures
            final(self).wf(),
            r.is_some() == old(self)@.is_ready(handle.spec_id()),
            r.is_some() ==> *r.unwrap() == old(self)@.value_of(handle.spec_id()),
            final(self)@ == match r {
                Some(x) => old(self)@.touched(handle.spec_id()).with_ready(
                    handle.spec_id(),
                    *final(x),
                ),
                None => old(self)@.touched(handle.spec_id()),
            },
    {
        let id = handle.id();
        self.render_cache.remove(&id);
        if !contains_id(&self.dirty, id) {
            self.dirty.push(id);
            proof {
                lemma_push_fresh(old(self)@.dirty, id);
                assert forall|i: int| 0 <= i < self@.dirty.len() implies self@.issued(
                    #[trigger] self@.dirty[i],
                ) by {
                    if i < old(self)@.dirty.len() {
                        assert(self@.dirty[i] == old(self)@.dirty[i]);
                    }
                }
            }
        }
        proof {
            assert(self@ == old(self)@.touched(id));
            lemma_replace_keeps_wf(self@, id);
        }
        ready_mut(&mut self.cache, id)
    }

    /// Makes changes to `path` reload `handle`. A path has one handle at a
    /// time: watching it again moves it to the newer handle.
    pub fn watch(&mut self, handle: AssetHandle<A>, path: &str)
        requires
            old(self).wf(),
            old(self)@.store.contains_key(handle.spec_id()),
        ensures
            final(self).wf(),
            final(self)@ == (AssetsView {
                watches: old(self)@.watches.insert(path@, handle.spec_id()),
                ..old(self)@
            }),
    {
        self.watches.insert(path.to_owned(), handle.id());
    }

    /// Makes write-back save `handle` to `path`.
    pub fn write(&mut self, handle: AssetHandle<A>, path: &str)
        requires
            old(self).wf(),
            old(self)@.store.contains_key(handle.spec_id()),
        ensures
            final(self).wf(),
            final(self)@ == (AssetsView {
                write_paths: old(self)@.write_paths.insert(handle.spec_id(), path@),
                ..old(self)@
            }),
    {
        let p = path.to_owned();
        proof {
            assert(self.write_paths@.insert(handle.spec_id(), p).map_values(|p: String| p@) =~= old(
                self,
            )@.write_paths.insert(handle.spec_id(), path@));
        }
        self.write_paths.insert(handle.id(), p);
    }

    /// Whether `handle` was mutated since the last write-back.
    pub fn is_dirty(&self, handle: AssetHandle<A>) -> (r: bool)
        ensures
            r == self@.dirty.contains(handle.spec_id()),
    {
        contains_id(&self.dirty, handle.id())
    }

    /// Hands out a new handle for `slot` and binds `path` as asked.
    fn add(&mut self, slot: Slot<A>, path: &str, watch: bool, write: bool) -> (r: AssetHandle<A>)
        requires
            old(self).wf(),
            old(self)@.next_id < u64::MAX,
        ensures
            final(self).wf(),
            r.spec_id() == old(self)@.next_id,
            !old(self)@.dirty.contains(r.spec_id()),
            final(self)@ == old(self)@.added(slot, path@, watch, write),
    {
        let handle = AssetHandle::<A>::new(self.next_id);
        self.next_id = self.next_id + 1;
        self.cache.insert(handle.id(), slot);
        proof {
            lemma_fresh_keeps_wf(old(self)@, slot);
            assert(self@ == old(self)@.added(slot, Seq::empty(), false, false));
        }
        if watch {
            self.watch(handle, path);
        }
        if write {
            self.write(handle, path);
        }
        handle
    }

    /// Stores `data`, which was loaded from `path`, under a new handle, and
    /// binds `path` for reloading and write-back as asked.
    pub fn insert_loaded(&mut self, data: A, path: &str, watch: bool, write: bool) -> (r:
        AssetHandle<A>)
        requires
            old(self).wf(),
            old(self)@.next_id < u64::MAX,
        ensures
            final(self).wf(),
            r.spec_id() == old(self)@.next_id,
            !old(self)@.dirty.contains(r.spec_id()),
            final(self)@ == old(self)@.added(Slot::Ready(data), path@, watch, write),
    {
        self.add(Slot::Ready(data), path, watch, write)
    }

    /// Loads the asset at `path` on this thread and stores it under a new
    /// handle, binding `path` for reloading and write-back as asked.
    pub fn load_sync(&mut self, path: &str, watch: bool, write: bool) -> (r: AssetHandle<A>) where
        A: LoadableAsset,
        requires
            old(self).wf(),
            old(self)@.next_id < u64::MAX,
        ensures
            final(self).wf(),
            r.spec_id() == old(self)@.next_id,
            !old(self)@.dirty.contains(r.spec_id()),
            final(self)@.is_ready(r.spec_id()),
            A::loaded_from(path@, final(self)@.value_of(r.spec_id())),
            final(self)@ == old(self)@.added(
                Slot::Ready(final(self)@.value_of(r.spec_id())),
                path@,
                watch,
                write,
            ),
    {
        let data = A::load(path);
        self.insert_loaded(data, path, watch, write)
    }

    /// Hands out a new handle whose value is still to come: `get` reports
    /// nothing for it until `poll_loaded` delivers the value. The caller runs
    /// the load off this thread.
    pub fn load_async(&mut self, path: &str, watch: bool, write: bool) -> (r: AssetHandle<A>)
        requires
            old(self).wf(),
            old(self)@.next_id < u64::MAX,
        ensures
            final(self).wf(),
            r.spec_id() == old(self)@.next_id,
            !old(self)@.dirty.contains(r.spec_id()),
            final(self)@ == old(self)@.added(Slot::Pending, path@, watch, write),
    {
        self.add(Slot::Pending, path, watch, write)
    }

    /// `load_sync` where `sync` holds, `load_async` where it does not.
    pub fn load(&mut self, path: &str, watch: bool, write: bool, sync: bool) -> (r: AssetHandle<
        A,
    >) where A: LoadableAsset
        requires
            old(self).wf(),
            old(self)@.next_id < u64::MAX,
        ensures
            final(self).wf(),
            r.spec_id() == old(self)@.next_id,
            !old(self)@.dirty.contains(r.spec_id()),
            sync ==> final(self)@.is_ready(r.spec_id()) && A::loaded_from(
                path@,
                final(self)@.value_of(r.spec_id()),
            ) && final(self)@ == old(self)@.added(
                Slot::Ready(final(self)@.value_of(r.spec_id())),
                path@,
                watch,
                write,
            ),
            !sync ==> final(self)@ == old(self)@.added(Slot::Pending, path@, watch, write),
    {
        if sync {
            self.load_sync(path, watch, write)
        } else {
            self.load_async(path, watch, write)
        }
    }

    /// Memoizes `derived`, computed from the value stored for `handle`, as
    /// its derived asset, under a new identity.
    pub fn insert_derived(&mut self, handle: AssetHandle<A>, derived: R) -> (r: ArcHandle<R>)
        requires
            old(self).wf(),
            old(self)@.is_ready(handle.spec_id()),
            !old(self)@.derived.contains_key(handle.spec_id()),
            old(self)@.next_derived_id < u64::MAX,
        ensures
            final(self).wf(),
            r.spec_id() == old(self)@.next_derived_id,
            r.value() == derived,
            final(self)@ == old(self)@.memoized(handle.spec_id(), r),
    {
        let d = ArcHandle::new(derived, self.next_derived_id);
        self.next_derived_id = self.next_derived_id + 1;
        let r = d.clone();
        self.render_cache.insert(handle.id(), d);
        proof {
            lemma_memoize_keeps_wf(old(self)@, handle.spec_id(), r);
        }
        r
    }

    /// The derived asset of `handle`: the memoized one where there is one,
    /// else one computed now from the stored value with `params` and
    /// memoized. Nothing while the value is absent or pending.
    ///
    /// `params` are not part of the memo: they count only when the derived
    /// asset is computed.
    pub fn convert(&mut self, handle: AssetHandle<A>, params: &R::Params) -> (r: Option<
        ArcHandle<R>,
    >) where R: ConvertableRenderAsset<SourceAsset = A>
        requires
            old(self).wf(),
            old(self)@.next_derived_id < u64::MAX,
        ensures
            final(self).wf(),
            old(self)@.converts(handle.spec_id(), r, final(self)@),
            !old(self)@.derived.contains_key(handle.spec_id()) && old(self)@.is_ready(
                handle.spec_id(),
            ) ==> R::converted(old(self)@.value_of(handle.spec_id()), *params, r.unwrap().value()),
    {
        let id = handle.id();
        if let Some(d) = self.render_cache.get(&id) {
            return Some(d.clone());
        }
        let derived = match self.cache.get(&id) {
            Some(Slot::Ready(source)) => R::convert(source, params),
            _ => {
                return None;
            },
        };
        Some(self.insert_derived(handle, derived))
    }

    /// Makes `a` the value of `id` and drops the derived asset of `id`.
    fn replace(&mut self, id: u64, a: A)
        requires
            old(self).wf(),
            old(self)@.issued(id),
        ensures
            final(self).wf(),
            final(self)@ == old(self)@.replaced(id, a),
    {
        self.cache.insert(id, Slot::Ready(a));
        self.render_cache.remove(&id);
        proof {
            lemma_replace_delivered_keeps_wf(old(self)@, id, a);
        }
    }

    /// Delivers the values of finished background loads, in the order they
    /// arrived: each replaces what was stored for its handle and drops the
    /// handle's derived asset.
    pub fn poll_loaded(&mut self, completed: Vec<(AssetHandle<A>, A)>)
        requires
            old(self).wf(),
            forall|i: int|
                0 <= i < completed.len() ==> old(self)@.issued(#[trigger] completed@[i].0.spec_id()),
        ensures
            final(self).wf(),
            final(self)@ == old(self)@.loaded(completed@),
    {
        let ghost batch = completed@;
        for item in it: completed.into_iter()
            invariant
                it.seq() == batch,
                self.wf(),
                self@.next_id == old(self)@.next_id,
                forall|i: int| 0 <= i < batch.len() ==> old(self)@.issued(#[trigger] batch[i].0.spec_id()),
                self@ == old(self)@.loaded(batch.take(it.index() as int)),
        {
            let (handle, a) = item;
            proof {
                assert(batch.take(it.index() + 1).drop_last() == batch.take(it.index() as int));
            }
            self.replace(handle.id(), a);
        }
        proof {
            assert(batch.take(batch.len() as int) == batch);
        }
    }

    /// Write-back: takes the dirty set, leaving it empty, and saves each of
    /// its handles that is bound to a path and has a stored value, in the
    /// order they were first mutated. Returns the handles saved.
    ///
    /// Saving may change the stored value (it goes through `&mut`); it does
    /// not touch anything else.
    pub fn poll_write(&mut self) -> (r: Vec<AssetHandle<A>>) where A: WriteableAsset
        requires
            old(self).wf(),
        ensures
            final(self).wf(),
            r@.map_values(|h: AssetHandle<A>| h.spec_id()) == old(self)@.write_targets(
                old(self)@.dirty,
            ),
            final(self)@ == (AssetsView {
                store: final(self)@.store,
                dirty: Seq::empty(),
                ..old(self)@
            }),
            final(self)@.store.dom() == old(self)@.store.dom(),
            forall|id: u64| #[trigger]
                old(self)@.store.contains_key(id) ==> if old(self)@.write_targets(
                    old(self)@.dirty,
                ).contains(id) {
                    final(self)@.is_ready(id)
                } else {
                    final(self)@.store[id] == old(self)@.store[id]
                },
            forall|id: u64| #[trigger]
                old(self)@.write_targets(old(self)@.dirty).contains(id) ==> A::written(
                    old(self)@.value_of(id),
                    old(self)@.write_paths[id],
                    final(self)@.value_of(id),
                ),
    {
        let mut dirty: Vec<u64> = Vec::new();
        core::mem::swap(&mut dirty, &mut self.dirty);
        let ghost v = old(self)@;
        let mut written: Vec<AssetHandle<A>> = Vec::new();
        let mut i: usize = 0;
        while i < dirty.len()
            invariant
                v == old(self)@,
                v.wf(),
                dirty@ == v.dirty,
                i <= dirty.len(),
                self@ == (AssetsView { store: self@.store, dirty: Seq::empty(), ..v }),
                self@.store.dom() == v.store.dom(),
                forall|id: u64| #[trigger]
                    v.store.contains_key(id) ==> if v.write_targets(dirty@.take(i as int)).contains(
                        id,
                    ) {
                        self@.is_ready(id)
                    } else {
                        self@.store[id] == v.store[id]
                    },
                forall|id: u64| #[trigger]
                    v.write_targets(dirty@.take(i as int)).contains(id) ==> A::written(
                        v.value_of(id),
                        v.write_paths[id],
                        self@.value_of(id),
                    ),
                written@.map_values(|h: AssetHandle<A>| h.spec_id()) == v.write_targets(
                    dirty@.take(i as int),
                ),
            decreases dirty.len() - i,
        {
            let id = dirty[i];
            let ghost before = self@.store;
            proof {
                assert(dirty@.take(i + 1).drop_last() == dirty@.take(i as int));
                if v.write_targets(dirty@.take(i as int)).contains(id) {
                    lemma_write_targets_within(v, dirty@.take(i as int), id);
                    let j = choose|j: int| 0 <= j < i && dirty@.take(i as int)[j] == id;
                    assert(dirty@[j] == dirty@[i as int]);
                }
            }
            if let Some(path) = self.write_paths.get(&id) {
                let path = path.clone();
                match ready_mut(&mut self.cache, id) {
                    Some(a) => {
                        a.write(path.as_str());
                        written.push(AssetHandle::new(id));
                        proof {
                            assert(before[id] == v.store[id]);
                            assert(A::written(
                                v.value_of(id),
                                v.write_paths[id],
                                self@.value_of(id),
                            ));
                        }
                    },
                    None => {},
                }
            }
            proof {
                let t0 = v.write_targets(dirty@.take(i as int));
                let t1 = v.write_targets(dirty@.take(i + 1));
                assert forall|k: u64| #[trigger] v.store.contains_key(k) implies if t1.contains(k) {
                    self@.is_ready(k)
                } else {
                    self@.store[k] == v.store[k]
                } by {
                    lemma_push_contains(t0, id, k);
                    if k != id {
                        assert(self@.store[k] == before[k]);
                    } else {
                        assert(before[id] == v.store[id]);
                    }
                }
                assert forall|k: u64| #[trigger] t1.contains(k) implies A::written(
                    v.value_of(k),
                    v.write_paths[k],
                    self@.value_of(k),
                ) by {
                    lemma_push_contains(t0, id, k);
                    if k != id {
                        lemma_write_targets_within(v, dirty@.take(i as int), k);
                        lemma_write_targets_exact(v, dirty@.take(i as int), k);
                        assert(self@.store[k] == before[k]);
                    }
                }
            }
            i = i + 1;
        }
        proof {
            assert(dirty@.take(dirty.len() as int) == dirty@);
        }
        written
    }

    /// Queues a change notification for `path`, as if the file had changed:
    /// the next `poll_reload` handles it.
    pub fn force_reload(&mut self, path: String)
        requires
            old(self).wf(),
        ensures
            final(self).wf(),
            final(self)@ == (AssetsView { reloads: old(self)@.reloads.push(path@), ..old(self)@ }),
    {
        proof {
            assert(self.reloads@.push(path).map_values(|p: String| p@) =~= old(
                self,
            )@.reloads.push(path@));
        }
        self.reloads.push(path);
    }

    /// Handles the queued change notifications, oldest first, leaving the
    /// queue empty: for each watched path, loads the file again on this
    /// thread, replaces the value of the handle bound to it and drops that
    /// handle's derived asset. Returns the handles reloaded, one for each
    /// load made.
    pub fn poll_reload(&mut self) -> (r: Vec<AssetHandle<A>>) where A: LoadableAsset
        requires
            old(self).wf(),
        ensures
            final(self).wf(),
            r@.map_values(|h: AssetHandle<A>| h.spec_id()) == old(self)@.reload_targets(
                old(self)@.reloads,
            ),
            final(self)@ == (AssetsView {
                store: final(self)@.store,
                derived: without(
                    old(self)@.derived,
                    old(self)@.reload_targets(old(self)@.reloads),
                ),
                reloads: Seq::empty(),
                ..old(self)@
            }),
            final(self)@.store.dom() == old(self)@.store.dom(),
            forall|id: u64| #[trigger]
                old(self)@.store.contains_key(id) ==> if old(self)@.reload_targets(
                    old(self)@.reloads,
                ).contains(id) {
                    final(self)@.is_ready(id)
                } else {
                    final(self)@.store[id] == old(self)@.store[id]
                },
            forall|id: u64| #[trigger]
                old(self)@.reload_targets(old(self)@.reloads).contains(id) ==> {
                    &&& old(self)@.reload_source(old(self)@.reloads, id) is Some
                    &&& A::loaded_from(
                        old(self)@.reload_source(old(self)@.reloads, id)->Some_0,
                        final(self)@.value_of(id),
                    )
                },
    {
        let mut queue: Vec<String> = Vec::new();
        core::mem::swap(&mut queue, &mut self.reloads);
        let ghost v = old(self)@;
        let ghost paths = v.reloads;
        proof {
            assert(self@.reloads =~= Seq::<Seq<char>>::empty());
            assert(self@ == AssetsView { reloads: Seq::empty(), ..v });
            assert(paths.take(0) =~= Seq::<Seq<char>>::empty());
        }
        let mut reloaded: Vec<AssetHandle<A>> = Vec::new();
        let mut i: usize = 0;
        while i < queue.len()
            invariant
                v == old(self)@,
                v.wf(),
                paths == v.reloads,
                queue@.map_values(|p: String| p@) == paths,
                i <= queue.len(),
                self.wf(),
                self@ == (AssetsView {
                    store: self@.store,
                    derived: without(v.derived, v.reload_targets(paths.take(i as int))),
                    reloads: Seq::empty(),
                    ..v
                }),
                self@.store.dom() == v.store.dom(),
                forall|id: u64| #[trigger]
                    v.store.contains_key(id) ==> if v.reload_targets(paths.take(i as int)).contains(
                        id,
                    ) {
                        self@.is_ready(id)
                    } else {
                        self@.store[id] == v.store[id]
                    },
                forall|id: u64| #[trigger]
                    v.reload_targets(paths.take(i as int)).contains(id) ==> {
                        &&& v.reload_source(paths.take(i as int), id) is Some
                        &&& A::loaded_from(
                            v.reload_source(paths.take(i as int), id)->Some_0,
                            self@.value_of(id),
                        )
                    },
                reloaded@.map_values(|h: AssetHandle<A>| h.spec_id()) == v.reload_targets(
                    paths.take(i as int),
                ),
            decreases queue.len() - i,
        {
            let path = &queue[i];
            let ghost before = self@.store;
            let ghost t0 = v.reload_targets(paths.take(i as int));
            proof {
                assert(paths.take(i + 1).drop_last() == paths.take(i as int));
                assert(paths[i as int] == path@);
            }
            if let Some(id) = self.watches.get(path.as_str()) {
                let id = *id;
                let a = A::load(path.as_str());
                self.replace(id, a);
                reloaded.push(AssetHandle::new(id));
                proof {
                    assert(t0.push(id).drop_last() == t0);
                }
            }
            proof {
                let t1 = v.reload_targets(paths.take(i + 1));
                assert forall|k: u64| #[trigger] v.store.contains_key(k) implies if t1.contains(k) {
                    self@.is_ready(k)
                } else {
                    self@.store[k] == v.store[k]
                } by {
                    if t1 != t0 {
                        lemma_push_contains(t0, t1.last(), k);
                    }
                }
                assert forall|k: u64| #[trigger] t1.contains(k) implies {
                    &&& v.reload_source(paths.take(i + 1), k) is Some
                    &&& A::loaded_from(
                        v.reload_source(paths.take(i + 1), k)->Some_0,
                        self@.value_of(k),
                    )
                } by {
                    if t1 != t0 {
                        lemma_push_contains(t0, t1.last(), k);
                    }
                    if !(v.watches.contains_key(path@) && v.watches[path@] == k) {
                        assert(t0.contains(k));
                        assert(self@.store[k] == before[k]);
                        assert(v.reload_source(paths.take(i + 1), k) == v.reload_source(
                            paths.take(i as int),
                            k,
                        ));
                    }
                }
            }
            i = i + 1;
        }
        proof {
            assert(paths.take(queue.len() as int) == paths);
        }
        reloaded
    }
}

} // verus!
