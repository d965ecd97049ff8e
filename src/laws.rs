use crate::assets::{lemma_write_targets_exact, without, AssetsView, Slot};
use crate::handle::AssetHandle;
use crate::shared::ArcHandle;
use vstd::prelude::*;

verus! {

proof fn lemma_next_id_monotone<A, R>(states: Seq<AssetsView<A, R>>, i: int, j: int)
    requires
        0 <= i <= j < states.len(),
        forall|k: int| 0 <= k < states.len() - 1 ==> #[trigger] states[k].next_id < states[k + 1].next_id,
    ensures
        i < j ==> states[i].next_id < states[j].next_id,
    decreases j - i,
{
    if i < j {
        lemma_next_id_monotone(states, i, j - 1);
        assert(states[j - 1].next_id < states[j].next_id);
    }
}

/// Handles handed out one after another never compare equal, whatever
/// other calls come between.
///
/// `states[k]` is the registry just before the `k`-th handle was handed out:
/// that handle has the registry's next id, and by the time the next one is
/// handed out the next id has moved past it (no call lowers it).
pub proof fn lemma_handles_unique<A, R, T>(
    states: Seq<AssetsView<A, R>>,
    handles: Seq<AssetHandle<T>>,
)
    requires
        states.len() == handles.len() + 1,
        forall|k: int| 0 <= k < handles.len() ==> #[trigger] handles[k].spec_id() == states[k].next_id,
        forall|k: int| 0 <= k < handles.len() ==> #[trigger] states[k].next_id < states[k + 1].next_id,
    ensures
        forall|i: int, j: int|
            0 <= i < j < handles.len() ==> #[trigger] handles[i].spec_id()
                != #[trigger] handles[j].spec_id(),
{
    assert forall|i: int, j: int| 0 <= i < j < handles.len() implies #[trigger] handles[i].spec_id()
        != #[trigger] handles[j].spec_id() by {
        assert forall|k: int| 0 <= k < states.len() - 1 implies #[trigger] states[k].next_id
            < states[k + 1].next_id by {
            assert(handles[k].spec_id() == states[k].next_id);
        }
        lemma_next_id_monotone(states, i, j);
    }
}

/// Right after `data` is stored under a new handle, the value stored for
/// that handle is `data`.
pub proof fn lemma_read_after_insert<A, R>(
    before: AssetsView<A, R>,
    handle: AssetHandle<A>,
    data: A,
    after: AssetsView<A, R>,
)
    requires
        handle.spec_id() == before.next_id,
        after == (AssetsView {
            store: before.store.insert(handle.spec_id(), Slot::Ready(data)),
            next_id: (before.next_id + 1) as u64,
            ..before
        }),
    ensures
        after.is_ready(handle.spec_id()),
        after.value_of(handle.spec_id()) == data,
{
}

/// A mutable access to a handle whose value is stored marks it dirty: the
/// next write-back saves it exactly when a path is bound to it, whatever
/// value was left behind (`a`), changed or not.
pub proof fn lemma_mutation_queues_write<A, R>(before: AssetsView<A, R>, id: u64, a: A)
    requires
        before.is_ready(id),
    ensures
        ({
            let after = before.touched(id).with_ready(id, a);
            after.write_targets(after.dirty).contains(id) <==> after.write_paths.contains_key(id)
        }),
{
    let after = before.touched(id).with_ready(id, a);
    if !before.dirty.contains(id) {
        assert(after.dirty[after.dirty.len() - 1] == id);
    }
    lemma_write_targets_exact(after, after.dirty, id);
}

/// A mutable access to a handle drops its memoized derived asset: the next
/// conversion of that handle, if it gives anything, gives a newly computed
/// asset under a new identity, never the one memoized before.
pub proof fn lemma_mutation_invalidates_derived<A, R>(
    before: AssetsView<A, R>,
    id: u64,
    a: A,
    r: Option<ArcHandle<R>>,
    converted: AssetsView<A, R>,
)
    requires
        before.wf(),
        before.is_ready(id),
        before.touched(id).with_ready(id, a).converts(id, r, converted),
    ensures
        r is Some,
        r.unwrap().spec_id() == before.next_derived_id,
        before.derived.contains_key(id) ==> r.unwrap().spec_id() != before.derived[id].spec_id(),
        converted == before.touched(id).with_ready(id, a).memoized(id, r.unwrap()),
{
}

proof fn lemma_loaded_frame<A, R>(v: AssetsView<A, R>, batch: Seq<(AssetHandle<A>, A)>)
    requires
        forall|i: int| 0 <= i < batch.len() ==> v.store.contains_key(#[trigger] batch[i].0.spec_id()),
    ensures
        v.loaded(batch).store.dom() == v.store.dom(),
    decreases batch.len(),
{
    if batch.len() > 0 {
        assert forall|i: int| 0 <= i < batch.drop_last().len() implies v.store.contains_key(
            #[trigger] batch.drop_last()[i].0.spec_id(),
        ) by {
            assert(batch.drop_last()[i] == batch[i]);
        }
        lemma_loaded_frame(v, batch.drop_last());
        assert(v.store.contains_key(batch[batch.len() - 1].0.spec_id()));
        assert(v.loaded(batch).store.dom() =~= v.store.dom());
    }
}

proof fn lemma_loaded_last<A, R>(v: AssetsView<A, R>, batch: Seq<(AssetHandle<A>, A)>, j: int)
    requires
        0 <= j < batch.len(),
        forall|k: int|
            j < k < batch.len() ==> #[trigger] batch[k].0.spec_id() != batch[j].0.spec_id(),
    ensures
        v.loaded(batch).is_ready(batch[j].0.spec_id()),
        v.loaded(batch).value_of(batch[j].0.spec_id()) == batch[j].1,
    decreases batch.len(),
{
    if j < batch.len() - 1 {
        assert forall|k: int| j < k < batch.drop_last().len() implies #[trigger] batch.drop_last()[
            k
        ].0.spec_id() != batch.drop_last()[j].0.spec_id() by {
            assert(batch.drop_last()[k] == batch[k]);
        }
        lemma_loaded_last(v, batch.drop_last(), j);
        assert(batch[batch.len() - 1].0.spec_id() != batch[j].0.spec_id());
    }
}

/// A handle from a background load has no value until its completion is
/// delivered; once delivered (and no later completion for it in the same
/// batch), its value is the loaded one, and no handle is added or lost.
pub proof fn lemma_async_load_visible<A, R>(
    before: AssetsView<A, R>,
    handle: AssetHandle<A>,
    path: Seq<char>,
    watch: bool,
    write: bool,
    batch: Seq<(AssetHandle<A>, A)>,
    j: int,
)
    requires
        before.wf(),
        handle.spec_id() == before.next_id,
        0 <= j < batch.len(),
        batch[j].0.spec_id() == handle.spec_id(),
        forall|k: int| j < k < batch.len() ==> #[trigger] batch[k].0.spec_id() != handle.spec_id(),
        forall|i: int|
            0 <= i < batch.len() ==> before.added(Slot::Pending, path, watch, write).store.contains_key(
                #[trigger] batch[i].0.spec_id(),
            ),
    ensures
        !before.added(Slot::Pending, path, watch, write).is_ready(handle.spec_id()),
        before.added(Slot::Pending, path, watch, write).loaded(batch).is_ready(handle.spec_id()),
        before.added(Slot::Pending, path, watch, write).loaded(batch).value_of(handle.spec_id())
            == batch[j].1,
        before.added(Slot::Pending, path, watch, write).loaded(batch).store.dom() == before.added(
            Slot::Pending,
            path,
            watch,
            write,
        ).store.dom(),
{
    let pending = before.added(Slot::Pending, path, watch, write);
    lemma_loaded_last(pending, batch, j);
    lemma_loaded_frame(pending, batch);
}

/// One change notification for a path, on an empty queue, makes the next
/// reload load exactly once, for the handle bound to the path, and drop
/// exactly that handle's derived asset; for a path that is not watched it
/// does nothing.
pub proof fn lemma_reload_once<A, R>(v: AssetsView<A, R>, path: Seq<char>)
    requires
        v.reloads.len() == 0,
    ensures
        ({
            let queued = AssetsView { reloads: v.reloads.push(path), ..v };
            let targets = queued.reload_targets(queued.reloads);
            if v.watches.contains_key(path) {
                &&& targets == seq![v.watches[path]]
                &&& without(v.derived, targets) == v.derived.remove(v.watches[path])
            } else {
                &&& targets == Seq::<u64>::empty()
                &&& without(v.derived, targets) == v.derived
            }
        }),
{
    let queued = AssetsView { reloads: v.reloads.push(path), ..v };
    assert(queued.reloads.drop_last() =~= Seq::<Seq<char>>::empty());
    assert(queued.reload_targets(queued.reloads.drop_last()) == Seq::<u64>::empty());
    assert(queued.reloads.last() == path);
    let targets = queued.reload_targets(queued.reloads);
    if v.watches.contains_key(path) {
        assert(targets =~= seq![v.watches[path]]);
        assert(targets.drop_last() =~= Seq::<u64>::empty());
        assert(without(v.derived, targets.drop_last()) == v.derived);
    } else {
        assert(targets =~= Seq::<u64>::empty());
    }
}

/// Two conversions of a handle in a row, with nothing in between, give the
/// same derived asset, and the second computes nothing.
pub proof fn lemma_convert_memoized<A, R>(
    s0: AssetsView<A, R>,
    id: u64,
    r1: Option<ArcHandle<R>>,
    s1: AssetsView<A, R>,
    r2: Option<ArcHandle<R>>,
    s2: AssetsView<A, R>,
)
    requires
        s0.converts(id, r1, s1),
        s1.converts(id, r2, s2),
        r1 is Some,
    ensures
        r2 == r1,
        s2 == s1,
{
}

} // verus!
