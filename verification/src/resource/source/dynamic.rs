//! Several sources, tried in order, that can come and go.
use vstd::prelude::*;

use crate::resource::id::ResourceId;
use crate::resource::source::list::{
    hash_in_order, is_missing, lemma_first_answer_counts, lemma_first_hash_counts, load_in_order,
};
use crate::resource::source::{
    DataSourceView, DataView, ResourceDataResult, ResourceDataSource, ResourceSource, SourceIndex,
};
use crate::resource::watcher::{Outgoing, ResourceWatcher, WatcherModel};
use crate::resource::LoadErrorView;
use crate::util::table::IdMap;

verus! {

/// A changing list of sources. Earlier sources take precedence. The watcher has one child for each
/// source, in the same order.
pub struct ResourceSourceDynamic<S> {
    sources: Vec<S>,
    watcher: ResourceWatcher,
}

impl<S> View for ResourceSourceDynamic<S> {
    type V = Seq<S>;

    closed spec fn view(&self) -> Seq<S> {
        self.sources@
    }
}

impl<S: ResourceSource> ResourceSourceDynamic<S> {
    /// The state of the watcher.
    pub closed spec fn watcher_state(&self) -> WatcherModel {
        self.watcher@
    }

    /// Each source has its own watcher below the list's watcher.
    pub closed spec fn wf(&self) -> bool {
        self.watcher.wf() && self.watcher@.children.len() == self.sources@.len()
    }

    /// Each source has its own watcher below the list's watcher.
    pub proof fn lemma_in_step(&self)
        requires
            self.wf(),
        ensures
            self.watcher_state().children.len() == self@.len(),
    {
    }

    /// No sources.
    pub fn new() -> (r: Self)
        ensures
            r.wf(),
            r@ == Seq::<S>::empty(),
            r.watcher_state().config.is_none(),
            r.watcher_state().children == Seq::<WatcherModel>::empty(),
            r.watcher_state().hashes == Map::<ResourceId, Seq<char>>::empty(),
            r.watcher_state().watches == Seq::<ResourceId>::empty(),
            r.watcher_state().partial_watches == Seq::<ResourceId>::empty(),
    {
        let hashes: IdMap<ResourceId, String> = IdMap::new();
        let r = ResourceSourceDynamic { sources: Vec::new(), watcher: ResourceWatcher::new(hashes) };
        assert(r.watcher_state().hashes =~= Map::<ResourceId, Seq<char>>::empty());
        r
    }

    /// The number of sources.
    pub fn len(&self) -> (r: usize)
        ensures
            r == self@.len(),
    {
        self.sources.len()
    }

    /// The source with number `idx`.
    pub fn source(&self, idx: usize) -> (r: &S)
        requires
            idx < self@.len(),
        ensures
            *r == self@[idx as int],
    {
        &self.sources[idx]
    }

    /// The watcher.
    pub fn watcher(&self) -> (r: &ResourceWatcher)
        requires
            self.wf(),
        ensures
            r.wf(),
            r@ == self.watcher_state(),
    {
        &self.watcher
    }

    /// Watches an identifier up to a position below.
    pub fn watch(&mut self, id: ResourceId, sub_idx: Option<SourceIndex>)
        requires
            old(self).wf(),
        ensures
            final(self).wf(),
            final(self)@ == old(self)@,
            final(self).watcher_state() == old(self).watcher_state().watch(id, sub_idx),
    {
        self.watcher.watch(id, sub_idx);
    }

    /// Puts a source, with its watcher, before the source with number `idx`, or last.
    pub fn insert(&mut self, idx: usize, source: S, watcher: ResourceWatcher, out: &mut Vec<Outgoing>)
        requires
            old(self).wf(),
            watcher.wf(),
            idx <= old(self)@.len(),
        ensures
            final(self).wf(),
            final(self)@ == old(self)@.insert(idx as int, source),
            final(self).watcher_state() == old(self).watcher_state().with_child(
                idx as int,
                watcher@,
            ).reconfigure(idx as int),
            crate::resource::watcher::is_kept(old(out)@, final(out)@),
            crate::resource::watcher::messages(final(out)@) == crate::resource::watcher::messages(old(out)@)
                + old(self).watcher_state().with_child(idx as int, watcher@).reconfigure_msgs(idx as int),
    {
        self.watcher.insert_child(idx, watcher, out);
        self.sources.insert(idx, source);
    }

    /// Puts a source, with its watcher, last.
    pub fn push(&mut self, source: S, watcher: ResourceWatcher, out: &mut Vec<Outgoing>)
        requires
            old(self).wf(),
            watcher.wf(),
        ensures
            final(self).wf(),
            final(self)@ == old(self)@.push(source),
            final(self).watcher_state() == old(self).watcher_state().with_child(
                old(self)@.len() as int,
                watcher@,
            ).reconfigure(old(self)@.len() as int),
            crate::resource::watcher::is_kept(old(out)@, final(out)@),
            crate::resource::watcher::messages(final(out)@) == crate::resource::watcher::messages(old(out)@)
                + old(self).watcher_state().with_child(old(self)@.len() as int, watcher@).reconfigure_msgs(
                old(self)@.len() as int,
            ),
    {
        self.watcher.push_child(watcher, out);
        self.sources.push(source);
    }

    /// Takes out the source with number `idx`, and its watcher, unconfigured.
    pub fn remove(&mut self, idx: usize, out: &mut Vec<Outgoing>) -> (r: (S, ResourceWatcher))
        requires
            old(self).wf(),
            idx < old(self)@.len(),
        ensures
            final(self).wf(),
            final(self)@ == old(self)@.remove(idx as int),
            r.0 == old(self)@[idx as int],
            r.1.wf(),
            r.1@ == old(self).watcher_state().children[idx as int].unconfigure(),
            final(self).watcher_state() == old(self).watcher_state().without_child(idx as int).reconfigure(
                idx as int,
            ),
            crate::resource::watcher::is_kept(old(out)@, final(out)@),
            crate::resource::watcher::messages(final(out)@) == crate::resource::watcher::messages(old(out)@)
                + old(self).watcher_state().children[idx as int].unconfigure_msgs()
                + old(self).watcher_state().without_child(idx as int).reconfigure_msgs(idx as int),
    {
        let watcher = self.watcher.remove_child(idx, out);
        let source = self.sources.remove(idx);
        (source, watcher)
    }
}

impl<S: ResourceSource> ResourceSource for ResourceSourceDynamic<S> {
    open spec fn hash_of(&self, id: ResourceId) -> Option<DataSourceView> {
        crate::resource::source::list::first_hash(self@, id, 0)
    }

    open spec fn data_of(&self, id: ResourceId) -> Result<DataView, LoadErrorView> {
        crate::resource::source::list::first_data(self@, id, 0)
    }

    open spec fn sub_data_of(&self, id: ResourceId, sub_idx: SourceIndex) -> Result<DataView, LoadErrorView> {
        self.data_of(id)
    }

    fn hash(&self, id: &ResourceId) -> (r: Option<ResourceDataSource>) {
        hash_in_order(&self.sources, id)
    }

    fn load(&self, id: &ResourceId) -> (r: ResourceDataResult) {
        load_in_order(&self.sources, id)
    }

    fn sub_load(&self, id: &ResourceId, sub_idx: &SourceIndex) -> (r: ResourceDataResult) {
        self.load(id)
    }
}

/// A changing list has the hash and the data of the first of its sources that answers, whichever
/// position is asked for.
pub proof fn lemma_dynamic_asks_in_order<S: ResourceSource>(
    list: ResourceSourceDynamic<S>,
    id: ResourceId,
    sub_idx: SourceIndex,
    i: int,
)
    requires
        0 <= i < list@.len() <= usize::MAX,
    ensures
        (forall|j: int| 0 <= j < i ==> (#[trigger] list@[j]).hash_of(id) is None) ==> (list@[i].hash_of(id) matches Some(
            source,
        ) ==> (list.hash_of(id) matches Some(found) && found.hash == source.hash && (found.idx matches Some(idx)
            && idx.idx == i && idx.below() == source.idx))),
        (forall|j: int| 0 <= j < i ==> is_missing((#[trigger] list@[j]).data_of(id))) ==> (list@[i].data_of(
            id,
        ) matches Ok(data) ==> (list.data_of(id) matches Ok(found) && found.data == data.data && (
        found.source.idx matches Some(idx) && idx.idx == i && idx.below() == data.source.idx))),
        list.hash_of(id) is Some ==> exists|j: int|
            0 <= j < list@.len() && (#[trigger] list@[j]).hash_of(id) is Some,
        list.sub_data_of(id, sub_idx) == list.data_of(id),
{
    if forall|j: int| 0 <= j < i ==> (#[trigger] list@[j]).hash_of(id) is None {
        lemma_first_hash_counts(list@, id, 0, i);
    }
    if forall|j: int| 0 <= j < i ==> is_missing((#[trigger] list@[j]).data_of(id)) {
        lemma_first_answer_counts(list@, id, 0, i);
    }
    if forall|j: int| 0 <= j < list@.len() ==> (#[trigger] list@[j]).hash_of(id) is None {
        lemma_first_hash_counts(list@, id, 0, list@.len() as int);
    }
}

} // verus!
