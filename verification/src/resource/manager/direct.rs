//! A manager that keeps one entry for each identifier and does not track dependencies.
//!
//! Loaders run outside: the manager says which data to hand to them and takes their result back.
//! Entries are numbered by the task that loads them. An entry that has left the cache stays until
//! it is released, since a request may still be waiting for it.
use vstd::prelude::*;

use crate::resource::id::ResourceId;
use crate::resource::manager::entry::{
    answer_option, outcome_option, CacheEntry, CacheEntryState, EntryUpdate, EntryView, LoadOutcome,
    OutcomeView, StateView,
};
use crate::resource::manager::load::{load_result, EntryGetResult, GetView, LoadPriority};
use crate::resource::manager::source::{find_data, find_hash, load_at, unwatch_all, watch_n, Sources};
use crate::resource::source::{
    ResourceSource, ResourceUpdate, SealedDataView, SealedResourceData, SealedResourceDataSource, SealedView,
    SourceIndex, UpdateView,
};
use crate::resource::watcher::{Outgoing, ResourceWatcher, ResourceWatcherSender, WatcherModel};
use crate::resource::{LoadErrorView, ResourceLoadError};
use crate::util::table::{IdMap, IdSet};

verus! {

/// Whether an entry in this state is taken: it is being updated, or is being loaded for somebody who
/// waits.
pub open spec fn is_taken(state: StateView) -> bool {
    match state {
        StateView::Loading { waiters, .. } => waiters.len() > 0,
        StateView::Updating(_) => true,
        _ => false,
    }
}

/// What is asked of a manager.
#[derive(Debug, Clone, Copy, PartialEq, Eq, Structural)]
pub struct Request {
    pub id: ResourceId,
    pub resource_type: u64,
    pub priority: LoadPriority,
}

/// The mathematical value of a [`ResourceManager`].
#[verifier::ext_equal]
pub struct ManagerView<S> {
    pub sources: Seq<S>,
    pub watchers: Seq<WatcherModel>,
    /// The entry of each identifier.
    pub cache: Map<ResourceId, u64>,
    pub entries: Map<u64, EntryView>,
}

impl<S: ResourceSource> ManagerView<S> {
    /// What the cache refers to is there, under the right identifier.
    pub open spec fn consistent(self) -> bool {
        forall|id: ResourceId|
            #![trigger self.cache.contains_key(id)]
            self.cache.contains_key(id) ==> self.entries.contains_key(self.cache[id])
                && self.entries[self.cache[id]].id == id
    }

    /// The state of the entry of an identifier.
    pub open spec fn state_of(self, id: ResourceId) -> Option<StateView> {
        if self.cache.contains_key(id) {
            Some(self.entries[self.cache[id]].state)
        } else {
            None
        }
    }

    /// With another state for an entry.
    pub open spec fn with_state(self, entry: u64, state: StateView) -> ManagerView<S> {
        ManagerView {
            entries: self.entries.insert(entry, EntryView { state, ..self.entries[entry] }),
            ..self
        }
    }

    /// Watching `id` up to a position.
    pub open spec fn watching(self, id: ResourceId, limit: Option<SourceIndex>) -> ManagerView<S> {
        match limit {
            Some(idx) => ManagerView { watchers: watch_n(self.watchers, id, idx), ..self },
            None => self,
        }
    }

    /// Without an entry for `id`, which is watched no longer.
    pub open spec fn removed(self, id: ResourceId) -> ManagerView<S> {
        ManagerView { cache: self.cache.remove(id), watchers: unwatch_all(self.watchers, id), ..self }
    }

    /// With a new entry for `id`, that the given task loads.
    pub open spec fn started(self, request: Request, task: u64) -> ManagerView<S> {
        ManagerView {
            cache: self.cache.insert(request.id, task),
            entries: self.entries.insert(
                task,
                EntryView {
                    id: request.id,
                    state: StateView::Loading {
                        task,
                        resource_type: request.resource_type,
                        waiters: Seq::empty(),
                    },
                },
            ),
            ..self
        }
    }

    /// After somebody has begun to wait for an entry.
    pub open spec fn awaited(self, entry: u64, waiter: u64) -> ManagerView<S> {
        match self.entries[entry].state {
            StateView::Loading { task, resource_type, waiters } => self.with_state(
                entry,
                StateView::Loading { task, resource_type, waiters: waiters.push(waiter) },
            ),
            _ => self,
        }
    }

    /// After an entry was asked for a resource of a type.
    pub open spec fn asked(self, entry: u64, requested: u64, outcome: Option<OutcomeView>) -> ManagerView<S> {
        let state = self.entries[entry].state;
        self.with_state(entry, state.polled(requested, outcome)).watching(
            self.entries[entry].id,
            state.watch_after(requested, outcome),
        )
    }

    /// What the entry of an identifier answers; `None` if it is to be loaded, `Some(None)` while it
    /// is being loaded.
    pub open spec fn answer(self, request: Request, outcome: Option<OutcomeView>, live: Seq<u64>) -> Option<
        Option<Result<u64, LoadErrorView>>,
    > {
        match self.state_of(request.id) {
            Some(state) => match state.answer(request.resource_type, outcome, live) {
                Some(GetView::Found(resource)) => Some(Some(Ok(resource))),
                Some(GetView::Failed(error)) => Some(Some(Err(error))),
                Some(GetView::Expired) => None,
                None => Some(None),
            },
            None => None,
        }
    }

    /// After a resource was asked for.
    pub open spec fn requested(
        self,
        request: Request,
        task: u64,
        outcome: Option<OutcomeView>,
        live: Seq<u64>,
    ) -> ManagerView<S> {
        let after = if self.cache.contains_key(request.id) {
            self.asked(self.cache[request.id], request.resource_type, outcome)
        } else {
            self
        };
        if self.answer(request, outcome, live).is_none() {
            after.started(request, task)
        } else {
            after
        }
    }

    /// The hash and the position that an update amounts to, and whether precedence is ignored. What
    /// was removed is looked for elsewhere.
    pub open spec fn target(self, id: ResourceId, at: SourceIndex, update: UpdateView) -> Option<
        (Seq<char>, SourceIndex, bool),
    > {
        match update {
            UpdateView::Added(hash) => Some((hash, at, false)),
            UpdateView::Modified(hash) => Some((hash, at, false)),
            UpdateView::Removed => match find_hash(self.sources, id, 0) {
                Some(source) => Some((source.hash, source.idx, true)),
                None => None,
            },
            UpdateView::MovedSourceIndex(_) => None,
        }
    }

    /// The update that a report amounts to, if any: there is an entry, and data to take.
    pub open spec fn reported(self, id: ResourceId, at: SourceIndex, update: UpdateView) -> Option<PendingView> {
        match self.target(id, at, update) {
            Some((hash, source_idx, ignore_priority)) => if self.cache.contains_key(id) {
                Some(PendingView { id, entry: self.cache[id], hash, source_idx, ignore_priority })
            } else {
                None
            },
            None => None,
        }
    }

    /// Whether the entry of an update is still the one that the cache refers to.
    pub open spec fn is_current(self, update: PendingView) -> bool {
        self.cache.contains_key(update.id) && self.cache[update.id] == update.entry
    }

    /// Whether the entry of an update is taken: another update of it has begun and not ended, or it is
    /// being loaded for somebody who waits.
    pub open spec fn is_busy(self, update: PendingView) -> bool {
        self.entries.contains_key(update.entry) && is_taken(self.entries[update.entry].state)
    }

    /// Whether an update is to be made: the data is other than what the entry has, and there is such
    /// a source.
    pub open spec fn is_due(self, update: PendingView) -> bool {
        &&& self.entries.contains_key(update.entry)
        &&& self.entries[update.entry].state.hash() != Some(update.hash)
        &&& update.source_idx.idx < self.sources.len()
    }

    /// What beginning an update gives. One whose entry is taken waits until it is not.
    pub open spec fn begins(self, update: PendingView, live: Seq<u64>) -> BegunView {
        if self.is_busy(update) {
            BegunView::Wait(update)
        } else if !self.is_due(update) {
            BegunView::Nothing
        } else {
            match self.entries[update.entry].state.update(update.source_idx, update.ignore_priority) {
                EntryUpdate::Run(resource) => match load_at(self.sources, update.id, update.source_idx) {
                    Some(Ok(data)) => if live.contains(resource) {
                        BegunView::Apply { entry: update.entry, resource, source_idx: update.source_idx, data }
                    } else {
                        BegunView::Nothing
                    },
                    _ => BegunView::Nothing,
                },
                _ => BegunView::Nothing,
            }
        }
    }

    /// After an update was begun.
    pub open spec fn begun(self, update: PendingView, live: Seq<u64>) -> ManagerView<S> {
        if self.is_busy(update) || !self.is_due(update) {
            self
        } else {
            let state = self.entries[update.entry].state;
            match state.update(update.source_idx, update.ignore_priority) {
                EntryUpdate::Skip => if self.is_current(update) {
                    self.watching(update.id, Some(update.source_idx))
                } else {
                    self
                },
                EntryUpdate::Evict => if self.is_current(update) {
                    self.removed(update.id)
                } else {
                    self
                },
                EntryUpdate::Run(resource) => match load_at(self.sources, update.id, update.source_idx) {
                    Some(Ok(_)) => if live.contains(resource) {
                        self.with_state(
                            update.entry,
                            state.updating(update.source_idx, update.ignore_priority),
                        )
                    } else if self.is_current(update) {
                        self.removed(update.id)
                    } else {
                        self
                    },
                    _ => self,
                },
            }
        }
    }

    /// What a report of an update gives.
    pub open spec fn update_begins(self, id: ResourceId, at: SourceIndex, update: UpdateView, live: Seq<u64>) -> BegunView {
        match self.reported(id, at, update) {
            Some(pending) => self.begins(pending, live),
            None => BegunView::Nothing,
        }
    }

    /// After an update was reported.
    pub open spec fn update_begun(self, id: ResourceId, at: SourceIndex, update: UpdateView, live: Seq<u64>) -> ManagerView<
        S,
    > {
        match self.reported(id, at, update) {
            Some(pending) => self.begun(pending, live),
            None => self,
        }
    }

    /// After an update has ended; `source` is where its data is from, if it succeeded.
    pub open spec fn update_ended(
        self,
        id: ResourceId,
        entry: u64,
        at: SourceIndex,
        outcome: UpdateOutcomeView,
    ) -> ManagerView<S> {
        let state = self.entries[entry].state;
        let after = if !self.entries.contains_key(entry) {
            self
        } else {
            match outcome {
                UpdateOutcomeView::Done(source) => self.with_state(entry, state.finalized(source)),
                _ => self.with_state(entry, state.abandoned()),
            }
        };
        if self.cache.contains_key(id) && self.cache[id] == entry {
            match outcome {
                UpdateOutcomeView::Done(_) => after.watching(id, Some(at)),
                UpdateOutcomeView::Expired => after.removed(id),
                UpdateOutcomeView::Failed => after,
            }
        } else {
            after
        }
    }

    /// Whether the cache refers to an entry.
    pub open spec fn is_cached(self, entry: u64) -> bool {
        exists|id: ResourceId| #[trigger] self.cache.contains_key(id) && self.cache[id] == entry
    }
}

/// How a loader's update has ended.
#[derive(Debug)]
pub enum UpdateOutcome {
    /// The resource has new contents, from this data.
    Done(SealedResourceDataSource),
    /// The resource is gone.
    Expired,
    /// The loader failed.
    Failed,
}

/// The mathematical value of an [`UpdateOutcome`].
pub enum UpdateOutcomeView {
    Done(SealedView),
    Expired,
    Failed,
}

impl View for UpdateOutcome {
    type V = UpdateOutcomeView;

    open spec fn view(&self) -> UpdateOutcomeView {
        match self {
            UpdateOutcome::Done(source) => UpdateOutcomeView::Done(source@),
            UpdateOutcome::Expired => UpdateOutcomeView::Expired,
            UpdateOutcome::Failed => UpdateOutcomeView::Failed,
        }
    }
}

/// What a loader is to apply.
#[derive(Debug)]
pub struct UpdateToApply {
    pub entry: u64,
    pub resource: u64,
    pub source_idx: SourceIndex,
    pub data: SealedResourceData,
}

/// An update whose data is known, and that has not begun yet.
#[derive(Debug)]
pub struct PendingUpdate {
    pub id: ResourceId,
    /// The entry that the cache referred to when the update was reported.
    pub entry: u64,
    pub hash: String,
    pub source_idx: SourceIndex,
    pub ignore_priority: bool,
}

/// The mathematical value of a [`PendingUpdate`].
pub struct PendingView {
    pub id: ResourceId,
    pub entry: u64,
    pub hash: Seq<char>,
    pub source_idx: SourceIndex,
    pub ignore_priority: bool,
}

impl View for PendingUpdate {
    type V = PendingView;

    open spec fn view(&self) -> PendingView {
        PendingView {
            id: self.id,
            entry: self.entry,
            hash: self.hash@,
            source_idx: self.source_idx,
            ignore_priority: self.ignore_priority,
        }
    }
}

/// How an update begins.
#[derive(Debug)]
pub enum UpdateBegun {
    /// There is nothing for the loader to do.
    Nothing,
    /// The loader is to apply this.
    Apply(UpdateToApply),
    /// Another update of the entry is running, or the entry is being loaded for somebody who waits:
    /// this update is to be resumed after that.
    Wait(PendingUpdate),
}

/// The mathematical value of an [`UpdateBegun`].
pub enum BegunView {
    Nothing,
    Apply { entry: u64, resource: u64, source_idx: SourceIndex, data: SealedDataView },
    Wait(PendingView),
}

impl View for UpdateBegun {
    type V = BegunView;

    open spec fn view(&self) -> BegunView {
        match self {
            UpdateBegun::Nothing => BegunView::Nothing,
            UpdateBegun::Apply(work) => BegunView::Apply {
                entry: work.entry,
                resource: work.resource,
                source_idx: work.source_idx,
                data: work.data@,
            },
            UpdateBegun::Wait(update) => BegunView::Wait(update@),
        }
    }
}

/// How a load begins.
#[derive(Debug)]
pub enum LoadBegun {
    /// The loader is to make the resource from this data.
    Loader(SealedResourceData),
    /// There is nothing for the loader to do.
    Done(LoadOutcome),
}

/// A manager of resources.
pub struct ResourceManager<S> {
    sources: Sources<S>,
    cache: IdMap<ResourceId, u64>,
    entries: IdMap<u64, CacheEntry>,
}

impl<S: ResourceSource> View for ResourceManager<S> {
    type V = ManagerView<S>;

    closed spec fn view(&self) -> ManagerView<S> {
        ManagerView {
            sources: self.sources.list(),
            watchers: self.sources.watcher_states(),
            cache: self.cache@,
            entries: self.entries@.map_values(|e: CacheEntry| e@),
        }
    }
}

impl<S: ResourceSource> ResourceManager<S> {
    /// What the cache refers to is there.
    pub closed spec fn wf(&self) -> bool {
        &&& self.sources.wf()
        &&& self.cache.wf()
        &&& self.entries.wf()
        &&& self@.consistent()
    }

    /// What the cache refers to is there, under the right identifier.
    pub proof fn lemma_consistent(&self)
        requires
            self.wf(),
        ensures
            self@.consistent(),
    {
    }

    /// A manager of the given sources, with an empty cache.
    pub fn new(sources: Sources<S>) -> (r: Self)
        requires
            sources.wf(),
        ensures
            r.wf(),
            r@ == (ManagerView {
                sources: sources.list(),
                watchers: sources.watcher_states(),
                cache: Map::empty(),
                entries: Map::empty(),
            }),
    {
        let r = ResourceManager { sources, cache: IdMap::new(), entries: IdMap::new() };
        assert(r@.entries =~= Map::empty());
        r
    }

    /// The builder of a manager.
    pub fn builder() -> (r: ResourceManagerBuilder<S>)
        ensures
            r.wf(),
            r.sources() == Seq::<S>::empty(),
            r.watchers() == Seq::<WatcherModel>::empty(),
    {
        ResourceManagerBuilder::new()
    }

    /// The watcher of a source, through which updates of the source are reported.
    pub fn watcher(&self, idx: usize) -> (r: &ResourceWatcher)
        requires
            self.wf(),
            idx < self@.sources.len(),
        ensures
            r.wf(),
            r@ == self@.watchers[idx as int],
    {
        self.sources.watcher(idx)
    }

    /// How loading an identifier begins: the sources are asked for its data.
    pub fn begin_load(&self, id: &ResourceId) -> (r: LoadBegun)
        ensures
            match find_data(|i: int| self@.sources[i].data_of(*id), self@.sources.len() as int, 0) {
                Some(Ok(data)) => r matches LoadBegun::Loader(d) && d@ == data,
                Some(Err(error)) => r matches LoadBegun::Done(o) && o@ == (OutcomeView {
                    result: Err(error),
                    source_idx: SourceIndex::greatest(),
                }),
                None => r matches LoadBegun::Done(o) && o@ == (OutcomeView {
                    result: Err(LoadErrorView::NotFound(*id)),
                    source_idx: SourceIndex::greatest(),
                }),
            },
    {
        match self.sources.find_data(id) {
            Some(Ok(data)) => LoadBegun::Loader(data),
            Some(Err(error)) => LoadBegun::Done(
                LoadOutcome { result: Err(error), source_idx: SourceIndex::max() },
            ),
            None => LoadBegun::Done(
                LoadOutcome {
                    result: Err(ResourceLoadError::NotFound(*id)),
                    source_idx: SourceIndex::max(),
                },
            ),
        }
    }

    /// How loading ends once the loader is done with the data from `source`.
    pub fn finish_load(source: SealedResourceDataSource, result: Result<u64, ResourceLoadError>) -> (r: LoadOutcome)
        ensures
            r@ == (OutcomeView {
                result: match result {
                    Ok(resource) => Ok((resource, source@.hash)),
                    Err(error) => Err(error@),
                },
                source_idx: source@.idx,
            }),
    {
        match result {
            Ok(resource) => LoadOutcome { result: Ok((resource, source.hash)), source_idx: source.idx },
            Err(error) => LoadOutcome { result: Err(error), source_idx: source.idx },
        }
    }

    /// Asks an entry for a resource of a type; `outcome` is what polling the awaited task gave.
    fn ask(&mut self, entry: u64, requested: u64, outcome: Option<LoadOutcome>, live: &IdSet<u64>) -> (r: Option<
        EntryGetResult,
    >)
        requires
            old(self).wf(),
            old(self)@.entries.contains_key(entry),
        ensures
            final(self).wf(),
            final(self)@ == old(self)@.asked(entry, requested, outcome_option(outcome)),
            answer_option(r) == old(self)@.entries[entry].state.answer(
                requested,
                outcome_option(outcome),
                live@,
            ),
    {
        let ghost pre = self@;
        match self.entries.remove(&entry) {
            Some(e) => {
                let id = e.id;
                let (e, polled) = e.poll(requested, outcome, live);
                let _ = self.entries.insert(entry, e);
                let ghost state = pre.entries[entry].state.polled(requested, outcome_option(outcome));
                assert(self@ =~= pre.with_state(entry, state));
                match &polled.watch {
                    Some(limit) => {
                        self.sources.watch_n(&id, limit);
                    },
                    None => {},
                }
                assert(self@ =~= pre.asked(entry, requested, outcome_option(outcome)));
                polled.answer
            },
            None => None,
        }
    }

    /// Somebody begins to wait for an entry.
    fn wait(&mut self, entry: u64, waiter: u64)
        requires
            old(self).wf(),
            old(self)@.entries.contains_key(entry),
        ensures
            final(self).wf(),
            final(self)@ == old(self)@.awaited(entry, waiter),
    {
        let ghost pre = self@;
        match self.entries.remove(&entry) {
            Some(e) => {
                let mut e = e;
                e.wait(waiter);
                let _ = self.entries.insert(entry, e);
                assert(self@ =~= pre.awaited(entry, waiter));
            },
            None => {},
        }
    }

    /// The task to poll before a request is made, if there is one.
    pub fn awaited_task(&self, request: &Request) -> (r: Option<u64>)
        requires
            self.wf(),
        ensures
            r == (match self@.state_of(request.id) {
                Some(state) => state.awaited_task(request.resource_type),
                None => None,
            }),
    {
        match self.cache.get(&request.id) {
            Some(entry) => match self.entries.get(entry) {
                Some(e) => e.state.awaited_task(request.resource_type),
                None => None,
            },
            None => None,
        }
    }

    /// Asks for a resource; `outcome` is what polling the awaited task gave. Where it has to be
    /// loaded, the task with the given number is to do so, and `true` comes with the result.
    pub fn get_or_load(
        &mut self,
        request: Request,
        task: u64,
        outcome: Option<LoadOutcome>,
        live: &IdSet<u64>,
    ) -> (r: (ResourceFuture, bool))
        requires
            old(self).wf(),
            !old(self)@.entries.contains_key(task),
        ensures
            final(self).wf(),
            final(self)@ == old(self)@.requested(request, task, outcome_option(outcome), live@),
            r.1 == old(self)@.answer(request, outcome_option(outcome), live@).is_none(),
            r.0@ == (match old(self)@.answer(request, outcome_option(outcome), live@) {
                Some(Some(result)) => FutureView::Immediate(result),
                Some(None) => FutureView::Delayed { entry: old(self)@.cache[request.id], request },
                None => FutureView::Delayed { entry: task, request },
            }),
    {
        let ghost pre = self@;
        match self.cache.get(&request.id) {
            Some(entry) => {
                let entry: u64 = *entry;
                assert(pre.cache.contains_key(request.id));
                match self.ask(entry, request.resource_type, outcome, live) {
                    Some(EntryGetResult::Found(resource)) => {
                        return (ResourceFuture::Immediate(Ok(resource)), false);
                    },
                    Some(EntryGetResult::Failed(error)) => {
                        return (ResourceFuture::Immediate(Err(error)), false);
                    },
                    Some(EntryGetResult::Expired) => {},
                    None => {
                        return (ResourceFuture::Delayed { entry, request }, false);
                    },
                }
            },
            None => {},
        }
        let ghost mid = self@;
        let _ = self.entries.insert(task, CacheEntry::from_task(request.id, task, request.resource_type));
        let _ = self.cache.insert(request.id, task);
        assert(self@ =~= mid.started(request, task));
        assert(self@.consistent()) by {
            assert forall|id: ResourceId|
                #![trigger self@.cache.contains_key(id)]
                self@.cache.contains_key(id) implies self@.entries.contains_key(self@.cache[id])
                && self@.entries[self@.cache[id]].id == id by {
                if id != request.id {
                    assert(mid.cache.contains_key(id));
                    assert(mid.cache[id] != task);
                }
            }
        }
        (ResourceFuture::Delayed { entry: task, request }, true)
    }

    /// Takes the entry of an identifier out of the cache.
    fn remove(&mut self, id: &ResourceId)
        requires
            old(self).wf(),
        ensures
            final(self).wf(),
            final(self)@ == old(self)@.removed(*id),
    {
        let ghost pre = self@;
        let _ = self.cache.remove(id);
        self.sources.unwatch_all(id);
        assert(self@ =~= pre.removed(*id));
        assert forall|k: ResourceId|
            #![trigger self@.cache.contains_key(k)]
            self@.cache.contains_key(k) implies self@.entries.contains_key(self@.cache[k])
            && self@.entries[self@.cache[k]].id == k by {
            assert(pre.cache.contains_key(k));
        }
    }

    /// Gives an entry another state.
    fn set_state(&mut self, entry: u64, id: ResourceId, state: CacheEntryState)
        requires
            old(self).sources.wf(),
            old(self).cache.wf(),
            old(self).entries.wf(),
        ensures
            final(self).sources == old(self).sources,
            final(self).cache == old(self).cache,
            final(self).entries.wf(),
            final(self)@ == (ManagerView {
                entries: old(self)@.entries.insert(entry, EntryView { id, state: state@ }),
                ..old(self)@
            }),
    {
        let ghost pre = self@;
        let _ = self.entries.insert(entry, CacheEntry { id, state });
        assert(self@.entries =~= pre.entries.insert(entry, EntryView { id, state: state@ }));
    }

    /// Begins an update that a source at `source_idx` reported.
    pub fn begin_update(
        &mut self,
        id: &ResourceId,
        source_idx: SourceIndex,
        update: &ResourceUpdate,
        live: &IdSet<u64>,
    ) -> (r: UpdateBegun)
        requires
            old(self).wf(),
        ensures
            final(self).wf(),
            final(self)@ == old(self)@.update_begun(*id, source_idx, update@, live@),
            r@ == old(self)@.update_begins(*id, source_idx, update@, live@),
    {
        let entry: u64 = match self.cache.get(id) {
            Some(entry) => *entry,
            None => {
                return UpdateBegun::Nothing;
            },
        };
        assert(self@.cache.contains_key(*id));
        let (hash, source_idx, ignore_priority) = match update {
            ResourceUpdate::Added(hash) => (hash.clone(), source_idx, false),
            ResourceUpdate::Modified(hash) => (hash.clone(), source_idx, false),
            ResourceUpdate::Removed => match self.sources.find_hash(id) {
                Some(source) => (source.hash, source.idx, true),
                None => {
                    return UpdateBegun::Nothing;
                },
            },
            ResourceUpdate::MovedSourceIndex(_) => {
                return UpdateBegun::Nothing;
            },
        };
        self.resume_update(PendingUpdate { id: *id, entry, hash, source_idx, ignore_priority }, live)
    }

    /// Begins an update that may have waited.
    pub fn resume_update(&mut self, update: PendingUpdate, live: &IdSet<u64>) -> (r: UpdateBegun)
        requires
            old(self).wf(),
        ensures
            final(self).wf(),
            final(self)@ == old(self)@.begun(update@, live@),
            r@ == old(self)@.begins(update@, live@),
    {
        let ghost pre = self@;
        let (busy, unchanged) = match self.entries.get(&update.entry) {
            Some(e) => (
                match &e.state {
                    CacheEntryState::Loading { wakers, .. } => !wakers.is_empty(),
                    CacheEntryState::Updating(_) => true,
                    _ => false,
                },
                match e.state.hash() {
                    Some(present) => *present == update.hash,
                    None => false,
                },
            ),
            None => {
                return UpdateBegun::Nothing;
            },
        };
        if busy {
            return UpdateBegun::Wait(update);
        }
        if unchanged || update.source_idx.idx() >= self.sources.len() {
            return UpdateBegun::Nothing;
        }
        let current = match self.cache.get(&update.id) {
            Some(present) => *present == update.entry,
            None => false,
        };
        match self.entries.remove(&update.entry) {
            Some(e) => {
                let (after, action) = e.state.update(&update.source_idx, update.ignore_priority);
                match action {
                    EntryUpdate::Skip => {
                        self.set_state(update.entry, e.id, after);
                        assert(self@ =~= pre);
                        if current {
                            self.sources.watch_n(&update.id, &update.source_idx);
                            assert(self@ =~= pre.watching(update.id, Some(update.source_idx)));
                        }
                        UpdateBegun::Nothing
                    },
                    EntryUpdate::Evict => {
                        self.set_state(update.entry, e.id, after);
                        assert(self@ =~= pre);
                        if current {
                            self.remove(&update.id);
                        }
                        UpdateBegun::Nothing
                    },
                    EntryUpdate::Run(resource) => match self.sources.load_at(&update.id, &update.source_idx) {
                        Some(Ok(data)) => {
                            if live.contains(&resource) {
                                self.set_state(update.entry, e.id, after);
                                assert(self@ =~= pre.with_state(update.entry, after@));
                                UpdateBegun::Apply(
                                    UpdateToApply {
                                        entry: update.entry,
                                        resource,
                                        source_idx: update.source_idx,
                                        data,
                                    },
                                )
                            } else {
                                self.set_state(update.entry, e.id, after.abandon_update());
                                assert(self@ =~= pre);
                                if current {
                                    self.remove(&update.id);
                                }
                                UpdateBegun::Nothing
                            }
                        },
                        _ => {
                            self.set_state(update.entry, e.id, after.abandon_update());
                            assert(self@ =~= pre);
                            UpdateBegun::Nothing
                        },
                    },
                }
            },
            None => UpdateBegun::Nothing,
        }
    }

    /// Ends an update that was to be applied.
    pub fn finish_update(&mut self, id: &ResourceId, entry: u64, source_idx: &SourceIndex, outcome: UpdateOutcome)
        requires
            old(self).wf(),
        ensures
            final(self).wf(),
            final(self)@ == old(self)@.update_ended(*id, entry, *source_idx, outcome@),
    {
        let ghost pre = self@;
        let ghost outcome_view = outcome@;
        let current = match self.cache.get(id) {
            Some(present) => *present == entry,
            None => false,
        };
        let done = match &outcome {
            UpdateOutcome::Done(_) => true,
            _ => false,
        };
        let expired = match &outcome {
            UpdateOutcome::Expired => true,
            _ => false,
        };
        match self.entries.remove(&entry) {
            Some(e) => {
                let state = match outcome {
                    UpdateOutcome::Done(source) => e.state.finalize_update(source),
                    _ => e.state.abandon_update(),
                };
                self.set_state(entry, e.id, state);
                assert(self@ =~= pre.with_state(entry, state@));
            },
            None => {
                assert(self@ =~= pre);
            },
        }
        let ghost mid = self@;
        if current {
            if done {
                self.sources.watch_n(id, source_idx);
                assert(self@ =~= mid.watching(*id, Some(*source_idx)));
            } else if expired {
                self.remove(id);
            }
        }
    }

    /// Whether the cache refers to an entry.
    pub fn is_cached(&self, entry: u64) -> (r: bool)
        requires
            self.wf(),
        ensures
            r == self@.is_cached(entry),
    {
        let id = match self.entries.get(&entry) {
            Some(e) => e.id,
            None => {
                return false;
            },
        };
        let cached = match self.cache.get(&id) {
            Some(present) => *present == entry,
            None => false,
        };
        proof {
            if cached {
                assert(self@.cache.contains_key(id) && self@.cache[id] == entry);
            } else {
                assert forall|k: ResourceId| #[trigger] self@.cache.contains_key(k) implies self@.cache[k]
                    != entry by {
                    if self@.cache[k] == entry {
                        assert(self@.entries[entry].id == k);
                    }
                }
            }
        }
        cached
    }

    /// Forgets an entry that nobody waits for any more, unless the cache refers to it.
    pub fn release(&mut self, entry: u64)
        requires
            old(self).wf(),
        ensures
            final(self).wf(),
            final(self)@ == (if old(self)@.is_cached(entry) {
                old(self)@
            } else {
                ManagerView { entries: old(self)@.entries.remove(entry), ..old(self)@ }
            }),
    {
        let ghost pre = self@;
        if !self.is_cached(entry) {
            let _ = self.entries.remove(&entry);
            assert(self@.entries =~= pre.entries.remove(entry));
        }
    }
}

/// Collects the sources of a [`ResourceManager`].
pub struct ResourceManagerBuilder<S> {
    sources: Vec<S>,
    watchers: Vec<ResourceWatcher>,
}

impl<S: ResourceSource> ResourceManagerBuilder<S> {
    /// The sources, those that take precedence first.
    pub closed spec fn sources(&self) -> Seq<S> {
        self.sources@
    }

    /// The states of their watchers.
    pub closed spec fn watchers(&self) -> Seq<WatcherModel> {
        Seq::new(self.watchers@.len(), |i: int| self.watchers@[i]@)
    }

    /// Each source has its watcher.
    pub closed spec fn wf(&self) -> bool {
        &&& self.sources@.len() == self.watchers@.len()
        &&& forall|i: int| 0 <= i < self.watchers@.len() ==> (#[trigger] self.watchers@[i]).wf()
    }

    /// There are no sources yet.
    pub fn new() -> (r: Self)
        ensures
            r.wf(),
            r.sources() == Seq::<S>::empty(),
            r.watchers() == Seq::<WatcherModel>::empty(),
    {
        let r = ResourceManagerBuilder { sources: Vec::new(), watchers: Vec::new() };
        assert(r.watchers() =~= Seq::<WatcherModel>::empty());
        r
    }

    /// Adds a source, after those added before.
    pub fn source(self, source: S, watcher: ResourceWatcher) -> (r: Self)
        requires
            self.wf(),
            watcher.wf(),
        ensures
            r.wf(),
            r.sources() == self.sources().push(source),
            r.watchers() == self.watchers().push(watcher@),
    {
        let mut sources = self.sources;
        let mut watchers = self.watchers;
        sources.push(source);
        watchers.push(watcher);
        let r = ResourceManagerBuilder { sources, watchers };
        assert(r.watchers() =~= self.watchers().push(watcher@));
        r
    }

    /// The manager of the collected sources, whose watchers report to `sender`.
    pub fn build(self, sender: ResourceWatcherSender, out: &mut Vec<Outgoing>) -> (r: ResourceManager<S>)
        requires
            self.wf(),
        ensures
            r.wf(),
            r@ == (ManagerView {
                sources: self.sources(),
                watchers: Seq::new(
                    self.watchers().len(),
                    |i: int|
                        self.watchers()[i].configure(
                            crate::resource::manager::source::outermost(i, sender),
                            0,
                        ),
                ),
                cache: Map::empty(),
                entries: Map::empty(),
            }),
            crate::resource::watcher::is_kept(old(out)@, final(out)@),
            crate::resource::watcher::messages(final(out)@) == crate::resource::watcher::messages(old(out)@)
                + crate::resource::manager::source::configure_all_msgs(
                self.watchers(),
                sender,
                self.watchers().len(),
            ),
    {
        let mut sources = Sources::new(self.sources, self.watchers);
        sources.configure(sender, out);
        ResourceManager::new(sources)
    }
}

/// A request that may still be waiting for its result.
#[derive(Debug)]
pub enum ResourceFuture {
    /// The result was there at once.
    Immediate(Result<u64, ResourceLoadError>),
    /// An entry is being loaded, and nobody waits yet.
    Delayed { entry: u64, request: Request },
    /// An entry is waited for.
    Awaiting { entry: u64, request: Request },
    /// The result was handed out, or the request is to be made anew.
    Complete,
}

/// The mathematical value of a [`ResourceFuture`].
pub enum FutureView {
    Immediate(Result<u64, LoadErrorView>),
    Delayed { entry: u64, request: Request },
    Awaiting { entry: u64, request: Request },
    Complete,
}

impl View for ResourceFuture {
    type V = FutureView;

    open spec fn view(&self) -> FutureView {
        match self {
            ResourceFuture::Immediate(result) => FutureView::Immediate(load_result(*result)),
            ResourceFuture::Delayed { entry, request } => FutureView::Delayed {
                entry: *entry,
                request: *request,
            },
            ResourceFuture::Awaiting { entry, request } => FutureView::Awaiting {
                entry: *entry,
                request: *request,
            },
            ResourceFuture::Complete => FutureView::Complete,
        }
    }
}

/// What polling a request gives.
#[derive(Debug)]
pub enum FuturePoll {
    /// The result.
    Ready(Result<u64, ResourceLoadError>),
    /// There is no result yet.
    Pending,
    /// The request is to be made anew: what it waited for is gone.
    Reload(Request),
}

/// The mathematical value of a [`FuturePoll`].
pub enum FuturePollView {
    Ready(Result<u64, LoadErrorView>),
    Pending,
    Reload(Request),
}

impl View for FuturePoll {
    type V = FuturePollView;

    open spec fn view(&self) -> FuturePollView {
        match self {
            FuturePoll::Ready(result) => FuturePollView::Ready(load_result(*result)),
            FuturePoll::Pending => FuturePollView::Pending,
            FuturePoll::Reload(request) => FuturePollView::Reload(*request),
        }
    }
}

impl FutureView {
    /// The entry that is waited for, and what for.
    pub open spec fn waits_for(self) -> Option<(u64, Request)> {
        match self {
            FutureView::Delayed { entry, request } | FutureView::Awaiting { entry, request } => Some(
                (entry, request),
            ),
            _ => None,
        }
    }

    /// Whether the request can still be answered by its entry. A request that nobody waits for yet
    /// does not hold on to an entry that has left the cache.
    pub open spec fn holds<S: ResourceSource>(self, manager: ManagerView<S>) -> bool {
        match self {
            FutureView::Delayed { entry, .. } => manager.entries.contains_key(entry) && manager.is_cached(entry),
            FutureView::Awaiting { entry, .. } => manager.entries.contains_key(entry),
            _ => false,
        }
    }

    /// What a poll gives.
    pub open spec fn poll<S: ResourceSource>(
        self,
        manager: ManagerView<S>,
        outcome: Option<OutcomeView>,
        live: Seq<u64>,
    ) -> FuturePollView {
        match self.waits_for() {
            Some((entry, request)) => if self.holds(manager) {
                match manager.entries[entry].state.answer(request.resource_type, outcome, live) {
                    Some(GetView::Found(resource)) => FuturePollView::Ready(Ok(resource)),
                    Some(GetView::Failed(error)) => FuturePollView::Ready(Err(error)),
                    Some(GetView::Expired) => FuturePollView::Reload(request),
                    None => FuturePollView::Pending,
                }
            } else {
                FuturePollView::Reload(request)
            },
            None => FuturePollView::Ready(self->Immediate_0),
        }
    }

    /// The manager after a poll.
    pub open spec fn poll_manager<S: ResourceSource>(
        self,
        manager: ManagerView<S>,
        outcome: Option<OutcomeView>,
    ) -> ManagerView<S> {
        match self.waits_for() {
            Some((entry, request)) => if self.holds(manager) {
                manager.asked(entry, request.resource_type, outcome)
            } else {
                manager
            },
            None => manager,
        }
    }
}

impl FutureView {
    /// The manager after a poll by somebody who waits from then on, if there is no result yet.
    pub open spec fn await_manager<S: ResourceSource>(
        self,
        manager: ManagerView<S>,
        waiter: u64,
        outcome: Option<OutcomeView>,
        live: Seq<u64>,
    ) -> ManagerView<S> {
        let after = self.poll_manager(manager, outcome);
        match self {
            FutureView::Delayed { entry, .. } => if self.poll(manager, outcome, live) is Pending {
                after.awaited(entry, waiter)
            } else {
                after
            },
            _ => after,
        }
    }
}

/// Asks the entry of a request, that is waited for already or is not.
fn poll_entry<S: ResourceSource>(
    manager: &mut ResourceManager<S>,
    entry: u64,
    request: Request,
    awaited: bool,
    outcome: Option<LoadOutcome>,
    live: &IdSet<u64>,
) -> (r: FuturePoll)
    requires
        old(manager).wf(),
    ensures
        final(manager).wf(),
        r@ == request_view(entry, request, awaited).poll(old(manager)@, outcome_option(outcome), live@),
        final(manager)@ == request_view(entry, request, awaited).poll_manager(
            old(manager)@,
            outcome_option(outcome),
        ),
{
    if !manager.entries.contains_key(&entry) || (!awaited && !manager.is_cached(entry)) {
        return FuturePoll::Reload(request);
    }
    match manager.ask(entry, request.resource_type, outcome, live) {
        Some(EntryGetResult::Found(resource)) => FuturePoll::Ready(Ok(resource)),
        Some(EntryGetResult::Failed(error)) => FuturePoll::Ready(Err(error)),
        Some(EntryGetResult::Expired) => FuturePoll::Reload(request),
        None => FuturePoll::Pending,
    }
}

/// A request that is waited for already or is not.
pub open spec fn request_view(entry: u64, request: Request, awaited: bool) -> FutureView {
    if awaited {
        FutureView::Awaiting { entry, request }
    } else {
        FutureView::Delayed { entry, request }
    }
}

impl ResourceFuture {
    /// Polls the request; `outcome` is what polling the task of its entry gave. `waiter` waits for it
    /// from now on, if there is no result yet and nobody waited for it before.
    pub fn poll<S: ResourceSource>(
        &mut self,
        manager: &mut ResourceManager<S>,
        waiter: u64,
        outcome: Option<LoadOutcome>,
        live: &IdSet<u64>,
    ) -> (r: FuturePoll)
        requires
            old(manager).wf(),
            !(old(self)@ is Complete),
        ensures
            final(manager).wf(),
            r@ == old(self)@.poll(old(manager)@, outcome_option(outcome), live@),
            final(manager)@ == old(self)@.await_manager(
                old(manager)@,
                waiter,
                outcome_option(outcome),
                live@,
            ),
            final(self)@ == (match (r@, old(self)@.waits_for()) {
                (FuturePollView::Pending, Some((entry, request))) => FutureView::Awaiting { entry, request },
                _ => FutureView::Complete,
            }),
    {
        let mut state = ResourceFuture::Complete;
        std::mem::swap(self, &mut state);
        match state {
            ResourceFuture::Immediate(result) => FuturePoll::Ready(result),
            ResourceFuture::Delayed { entry, request } => {
                let polled = poll_entry(manager, entry, request, false, outcome, live);
                match &polled {
                    FuturePoll::Pending => {
                        manager.wait(entry, waiter);
                        *self = ResourceFuture::Awaiting { entry, request };
                    },
                    _ => {},
                }
                polled
            },
            ResourceFuture::Awaiting { entry, request } => {
                let polled = poll_entry(manager, entry, request, true, outcome, live);
                match &polled {
                    FuturePoll::Pending => {
                        *self = ResourceFuture::Awaiting { entry, request };
                    },
                    _ => {},
                }
                polled
            },
            ResourceFuture::Complete => FuturePoll::Pending,
        }
    }

    /// Looks whether there is a result, without waiting for it. Where there is none yet, the request
    /// comes back.
    pub fn check<S: ResourceSource>(
        self,
        manager: &mut ResourceManager<S>,
        outcome: Option<LoadOutcome>,
        live: &IdSet<u64>,
    ) -> (r: (FuturePoll, ResourceFuture))
        requires
            old(manager).wf(),
            self@ is Immediate || self@ is Delayed,
        ensures
            final(manager).wf(),
            r.0@ == self@.poll(old(manager)@, outcome_option(outcome), live@),
            final(manager)@ == self@.poll_manager(old(manager)@, outcome_option(outcome)),
            r.1@ == (if r.0@ is Pending {
                self@
            } else {
                FutureView::Complete
            }),
    {
        match self {
            ResourceFuture::Delayed { entry, request } => {
                let polled = poll_entry(manager, entry, request, false, outcome, live);
                match &polled {
                    FuturePoll::Pending => {
                        return (polled, ResourceFuture::Delayed { entry, request });
                    },
                    _ => {},
                }
                (polled, ResourceFuture::Complete)
            },
            ResourceFuture::Immediate(result) => (FuturePoll::Ready(result), ResourceFuture::Complete),
            _ => (FuturePoll::Pending, self),
        }
    }

    /// A description of the request; `alive` says whether its entry is still there, and `error` is
    /// the description of its error.
    pub fn debug_text(&self, alive: bool, error: &str) -> (r: String)
        ensures
            r@ == "ResourceFuture { "@ + (match self@ {
                FutureView::Immediate(Ok(_)) => "Immediate: Ok(<resource>)"@,
                FutureView::Immediate(Err(_)) => "Immediate: Err("@ + error@ + ")"@,
                FutureView::Delayed { .. } => if alive {
                    "Delayed: <cache>"@
                } else {
                    "Delayed: <expired>"@
                },
                FutureView::Awaiting { .. } => "Awaiting: \"<awaiting>\""@,
                FutureView::Complete => "Uninit: \"<uninit>\""@,
            }) + " }"@,
    {
        let mut s = "ResourceFuture { ".to_owned();
        match self {
            ResourceFuture::Immediate(Ok(_)) => {
                s.append("Immediate: Ok(<resource>)");
            },
            ResourceFuture::Immediate(Err(_)) => {
                s.append("Immediate: Err(");
                s.append(error);
                s.append(")");
                assert(s@ =~= "ResourceFuture { "@ + ("Immediate: Err("@ + error@ + ")"@));
            },
            ResourceFuture::Delayed { .. } => {
                if alive {
                    s.append("Delayed: <cache>");
                } else {
                    s.append("Delayed: <expired>");
                }
            },
            ResourceFuture::Awaiting { .. } => {
                s.append("Awaiting: \"<awaiting>\"");
            },
            ResourceFuture::Complete => {
                s.append("Uninit: \"<uninit>\"");
            },
        }
        s.append(" }");
        s
    }
}

/// A request that started a load is answered once the load has ended, and so is every later request
/// of the type for as long as the resource lives.
pub proof fn lemma_loaded_is_answered<S: ResourceSource>(
    manager: ManagerView<S>,
    request: Request,
    task: u64,
    outcome: OutcomeView,
    live: Seq<u64>,
    later: Seq<u64>,
)
    requires
        manager.answer(request, None, live).is_none(),
        outcome.result.is_ok(),
        later.contains(outcome.result->Ok_0.0),
    ensures
        ({
            let waiting = manager.requested(request, task, None, live);
            let future = FutureView::Delayed { entry: task, request };
            let done = future.poll_manager(waiting, Some(outcome));
            &&& future.poll(waiting, None, live) == FuturePollView::Pending
            &&& future.poll(waiting, Some(outcome), live) == FuturePollView::Ready(
                Ok(outcome.result->Ok_0.0),
            )
            &&& done.answer(request, None, later) == Some(Some(Ok::<u64, LoadErrorView>(outcome.result->Ok_0.0)))
            &&& done.watchers == watch_n(waiting.watchers, request.id, outcome.source_idx)
        }),
{
    assert(manager.requested(request, task, None, live).cache.contains_key(request.id));
}

/// A load that failed is not repeated: the failure is the answer to every later request.
pub proof fn lemma_failure_is_cached<S: ResourceSource>(
    manager: ManagerView<S>,
    request: Request,
    task: u64,
    outcome: OutcomeView,
    live: Seq<u64>,
    later: Seq<u64>,
)
    requires
        manager.answer(request, None, live).is_none(),
        outcome.result.is_err(),
    ensures
        ({
            let waiting = manager.requested(request, task, None, live);
            let future = FutureView::Delayed { entry: task, request };
            let done = future.poll_manager(waiting, Some(outcome));
            &&& future.poll(waiting, Some(outcome), live) == FuturePollView::Ready(
                Err(outcome.result->Err_0),
            )
            &&& done.answer(request, None, later) == Some(Some(Err::<u64, LoadErrorView>(outcome.result->Err_0)))
        }),
{
    assert(manager.requested(request, task, None, live).cache.contains_key(request.id));
}

/// A request is made anew once the resource that it waited for is gone.
pub proof fn lemma_gone_is_reloaded<S: ResourceSource>(
    manager: ManagerView<S>,
    request: Request,
    task: u64,
    outcome: OutcomeView,
    live: Seq<u64>,
    later: Seq<u64>,
)
    requires
        manager.answer(request, None, live).is_none(),
        outcome.result.is_ok(),
        !later.contains(outcome.result->Ok_0.0),
    ensures
        ({
            let waiting = manager.requested(request, task, None, live);
            let future = FutureView::Delayed { entry: task, request };
            let done = future.poll_manager(waiting, Some(outcome));
            &&& future.poll(done, None, later) == FuturePollView::Reload(request)
            &&& done.answer(request, None, later).is_none()
        }),
{
    assert(manager.requested(request, task, None, live).cache.contains_key(request.id));
}

/// A request that nobody waits for yet is made anew once its entry has left the cache, whatever the
/// entry holds.
pub proof fn lemma_evicted_is_reloaded<S: ResourceSource>(
    manager: ManagerView<S>,
    entry: u64,
    request: Request,
    outcome: Option<OutcomeView>,
    live: Seq<u64>,
)
    requires
        !manager.is_cached(entry),
    ensures
        (FutureView::Delayed { entry, request }).poll(manager, outcome, live) == FuturePollView::Reload(request),
        (FutureView::Delayed { entry, request }).poll_manager(manager, outcome) == manager,
{
}

/// Data with the hash that a resource was loaded from last changes nothing.
pub proof fn lemma_same_hash_is_ignored<S: ResourceSource>(
    manager: ManagerView<S>,
    id: ResourceId,
    at: SourceIndex,
    hash: Seq<char>,
    live: Seq<u64>,
)
    requires
        manager.state_of(id).is_some(),
        manager.state_of(id).unwrap().hash() == Some(hash),
    ensures
        manager.update_begun(id, at, UpdateView::Added(hash), live) == manager,
        manager.update_begun(id, at, UpdateView::Modified(hash), live) == manager,
        !(manager.state_of(id).unwrap() is Updating) ==> {
            &&& manager.update_begins(id, at, UpdateView::Added(hash), live) is Nothing
            &&& manager.update_begins(id, at, UpdateView::Modified(hash), live) is Nothing
        },
{
}

/// An update that is reported while another one runs, or while the entry is being loaded for somebody
/// who waits, is not lost: it changes nothing until it is resumed, and, as long as its entry is cached, is then taken up as if it were reported only then.
pub proof fn lemma_waiting_update_is_taken_up<S: ResourceSource>(
    manager: ManagerView<S>,
    id: ResourceId,
    at: SourceIndex,
    update: UpdateView,
    live: Seq<u64>,
    later: ManagerView<S>,
    later_live: Seq<u64>,
)
    requires
        manager.consistent(),
        manager.state_of(id).is_some(),
        is_taken(manager.state_of(id).unwrap()),
        update is Added || update is Modified,
        later.cache.contains_key(id),
        later.cache[id] == manager.cache[id],
    ensures
        ({
            let begun = manager.update_begins(id, at, update, live);
            &&& begun is Wait
            &&& manager.update_begun(id, at, update, live) == manager
            &&& later.begins(begun->Wait_0, later_live) == later.update_begins(id, at, update, later_live)
            &&& later.begun(begun->Wait_0, later_live) == later.update_begun(id, at, update, later_live)
        }),
{
    assert(manager.cache.contains_key(id));
}

/// A source that comes after the one that a resource was loaded from does not change the resource.
pub proof fn lemma_later_source_is_ignored<S: ResourceSource>(
    manager: ManagerView<S>,
    id: ResourceId,
    at: SourceIndex,
    hash: Seq<char>,
    live: Seq<u64>,
)
    requires
        manager.state_of(id).is_some(),
        manager.state_of(id).unwrap() is CachedValue,
        manager.state_of(id).unwrap()->CachedValue_0.source_idx.before(at),
    ensures
        manager.update_begins(id, at, UpdateView::Modified(hash), live) is Nothing,
        manager.update_begun(id, at, UpdateView::Modified(hash), live).cache == manager.cache,
        manager.update_begun(id, at, UpdateView::Modified(hash), live).entries == manager.entries,
{
    let value = manager.state_of(id).unwrap()->CachedValue_0;
    if value.source_idx == at {
        crate::resource::source::lemma_index_order_irreflexive(at);
    } else {
        crate::resource::source::lemma_index_order_total(value.source_idx, at);
    }
}

/// What was removed at its source is taken from the first source that still has it, whichever comes
/// first.
pub proof fn lemma_removed_falls_back<S: ResourceSource>(
    manager: ManagerView<S>,
    id: ResourceId,
    at: SourceIndex,
    live: Seq<u64>,
)
    requires
        manager.consistent(),
        manager.state_of(id).is_some(),
        manager.state_of(id).unwrap() is CachedValue,
        find_hash(manager.sources, id, 0).is_some(),
        manager.sources.len() <= usize::MAX,
        find_hash(manager.sources, id, 0).unwrap().hash != manager.state_of(id).unwrap()->CachedValue_0.hash,
        load_at(manager.sources, id, find_hash(manager.sources, id, 0).unwrap().idx).unwrap().is_ok(),
        live.contains(manager.state_of(id).unwrap()->CachedValue_0.resource),
    ensures
        manager.update_begins(id, at, UpdateView::Removed, live) == (BegunView::Apply {
            entry: manager.cache[id],
            resource: manager.state_of(id).unwrap()->CachedValue_0.resource,
            source_idx: find_hash(manager.sources, id, 0).unwrap().idx,
            data: load_at(manager.sources, id, find_hash(manager.sources, id, 0).unwrap().idx).unwrap()->Ok_0,
        }),
{
    assert(manager.cache.contains_key(id));
    crate::resource::manager::source::lemma_find_hash_in_range(manager.sources, id, 0);
}

/// An update that fails leaves the cache as it was before it began.
pub proof fn lemma_failed_update_keeps_value<S: ResourceSource>(
    manager: ManagerView<S>,
    id: ResourceId,
    at: SourceIndex,
    update: UpdateView,
    live: Seq<u64>,
)
    requires
        manager.consistent(),
        manager.update_begins(id, at, update, live) is Apply,
    ensures
        manager.update_begun(id, at, update, live).update_ended(
            id,
            manager.cache[id],
            manager.update_begins(id, at, update, live)->Apply_source_idx,
            UpdateOutcomeView::Failed,
        ) == manager,
{
    assert(manager.cache.contains_key(id));
    assert(manager.update_begun(id, at, update, live).update_ended(
        id,
        manager.cache[id],
        manager.update_begins(id, at, update, live)->Apply_source_idx,
        UpdateOutcomeView::Failed,
    ) =~= manager);
}

/// Other data that is reported, as added or as modified, from the source of a resource or one before
/// it, is handed to the resource if it lives: the entry is being updated from then on. If the resource
/// is gone, its identifier leaves the cache and is watched no longer. If the data cannot be read,
/// nothing happens.
pub proof fn lemma_new_data_is_applied<S: ResourceSource>(
    manager: ManagerView<S>,
    id: ResourceId,
    at: SourceIndex,
    update: UpdateView,
    hash: Seq<char>,
    live: Seq<u64>,
    value: crate::resource::manager::entry::ValueView,
)
    requires
        manager.consistent(),
        manager.state_of(id) == Some(StateView::CachedValue(value)),
        update == UpdateView::Added(hash) || update == UpdateView::Modified(hash),
        value.hash != hash,
        at == value.source_idx || at.before(value.source_idx),
        at.idx < manager.sources.len(),
    ensures
        ({
            let begins = manager.update_begins(id, at, update, live);
            let after = manager.update_begun(id, at, update, live);
            match load_at(manager.sources, id, at) {
                Some(Ok(data)) => if live.contains(value.resource) {
                    &&& begins == (BegunView::Apply {
                        entry: manager.cache[id],
                        resource: value.resource,
                        source_idx: at,
                        data,
                    })
                    &&& after.cache == manager.cache
                    &&& after.watchers == manager.watchers
                    &&& after.state_of(id) == Some(StateView::Updating(value))
                } else {
                    &&& begins is Nothing
                    &&& !after.cache.contains_key(id)
                    &&& after.entries == manager.entries
                    &&& after.watchers == unwatch_all(manager.watchers, id)
                },
                _ => begins is Nothing && after == manager,
            }
        }),
{
    assert(manager.cache.contains_key(id));
}

/// What is reported of an identifier that is not cached, or that its source has another position, is
/// ignored; so is the removal of what no other source has.
pub proof fn lemma_idle_reports_are_ignored<S: ResourceSource>(
    manager: ManagerView<S>,
    id: ResourceId,
    at: SourceIndex,
    update: UpdateView,
    live: Seq<u64>,
)
    requires
        !manager.cache.contains_key(id) || update is MovedSourceIndex || update is Removed && find_hash(
            manager.sources,
            id,
            0,
        ) is None,
    ensures
        manager.update_begins(id, at, update, live) is Nothing,
        manager.update_begun(id, at, update, live) == manager,
{
}

/// What is reported of a failed load evicts it, so that it is loaded anew when it is asked for next.
pub proof fn lemma_failure_is_evicted<S: ResourceSource>(
    manager: ManagerView<S>,
    id: ResourceId,
    at: SourceIndex,
    update: UpdateView,
    hash: Seq<char>,
    live: Seq<u64>,
    request: Request,
)
    requires
        manager.consistent(),
        manager.state_of(id) is Some,
        manager.state_of(id).unwrap() is CachedError,
        update == UpdateView::Added(hash) || update == UpdateView::Modified(hash),
        at.idx < manager.sources.len(),
        request.id == id,
    ensures
        manager.update_begins(id, at, update, live) is Nothing,
        !manager.update_begun(id, at, update, live).cache.contains_key(id),
        manager.update_begun(id, at, update, live).watchers == unwatch_all(manager.watchers, id),
        manager.update_begun(id, at, update, live).answer(request, None, live) is None,
{
    assert(manager.cache.contains_key(id));
}

/// An update reaches the entry of its own identifier only: whatever else is cached answers as before.
pub proof fn lemma_updates_are_independent<S: ResourceSource>(
    manager: ManagerView<S>,
    id: ResourceId,
    at: SourceIndex,
    update: UpdateView,
    live: Seq<u64>,
    other: ResourceId,
)
    requires
        manager.consistent(),
        other != id,
    ensures
        manager.update_begun(id, at, update, live).cache.contains_key(other) == manager.cache.contains_key(other),
        manager.update_begun(id, at, update, live).state_of(other) == manager.state_of(other),
        manager.update_begun(id, at, update, live).sources == manager.sources,
{
    if manager.cache.contains_key(other) {
        assert(manager.entries[manager.cache[other]].id == other);
    }
    if manager.cache.contains_key(id) {
        assert(manager.entries[manager.cache[id]].id == id);
    }
}

/// An update that has ended. If it was made, the resource has the hash and the position of the new
/// data, and the sources are watched up to where it came from. If the resource is gone, its identifier
/// leaves the cache. Only an entry that the cache still refers to has a say in what is cached and
/// watched.
pub proof fn lemma_ended_updates<S: ResourceSource>(
    manager: ManagerView<S>,
    id: ResourceId,
    entry: u64,
    at: SourceIndex,
    source: SealedView,
    value: crate::resource::manager::entry::ValueView,
)
    requires
        manager.entries.contains_key(entry),
        manager.entries[entry].state == StateView::Updating(value),
    ensures
        ({
            let is_current = manager.cache.contains_key(id) && manager.cache[id] == entry;
            let done = manager.update_ended(id, entry, at, UpdateOutcomeView::Done(source));
            let expired = manager.update_ended(id, entry, at, UpdateOutcomeView::Expired);
            let failed = manager.update_ended(id, entry, at, UpdateOutcomeView::Failed);
            &&& done.entries[entry].state matches StateView::CachedValue(new) && {
                &&& new.resource == value.resource
                &&& new.resource_type == value.resource_type
                &&& new.hash == source.hash
                &&& new.source_idx == source.idx
            }
            &&& done.cache == manager.cache
            &&& is_current ==> done.watchers == watch_n(manager.watchers, id, at)
            &&& expired.entries[entry].state == StateView::CachedValue(value)
            &&& is_current ==> !expired.cache.contains_key(id) && expired.watchers == unwatch_all(manager.watchers, id)
            &&& failed.entries[entry].state == StateView::CachedValue(value)
            &&& failed.cache == manager.cache && failed.watchers == manager.watchers
            &&& !is_current ==> {
                &&& done.watchers == manager.watchers
                &&& expired.cache == manager.cache && expired.watchers == manager.watchers
            }
            &&& forall|other: u64|
                other != entry && manager.entries.contains_key(other) ==> #[trigger] done.entries[other]
                    == manager.entries[other] && expired.entries[other] == manager.entries[other]
                    && failed.entries[other] == manager.entries[other]
        }),
{
}

/// What a request is answered at once: what its entry answers, unless there is none or the resource is
/// gone; then a load of the requested type is started, under the number of its task, and the cache
/// refers to it from then on. Entries of other identifiers answer as before.
pub proof fn lemma_requests_start_loads<S: ResourceSource>(
    manager: ManagerView<S>,
    request: Request,
    task: u64,
    outcome: Option<OutcomeView>,
    live: Seq<u64>,
    other: ResourceId,
)
    requires
        manager.consistent(),
        !manager.entries.contains_key(task),
        other != request.id,
    ensures
        ({
            let answer = manager.answer(request, outcome, live);
            let after = manager.requested(request, task, outcome, live);
            let own = match manager.state_of(request.id) {
                Some(state) => state.answer(request.resource_type, outcome, live),
                None => Some(GetView::Expired),
            };
            &&& answer is None <==> own == Some(GetView::Expired)
            &&& own matches Some(GetView::Found(resource)) ==> answer == Some(Some(Ok::<u64, LoadErrorView>(resource)))
            &&& own matches Some(GetView::Failed(error)) ==> answer == Some(Some(Err::<u64, LoadErrorView>(error)))
            &&& own is None ==> answer == Some(None::<Result<u64, LoadErrorView>>)
            &&& answer is None ==> {
                &&& after.cache.contains_key(request.id)
                &&& after.cache[request.id] == task
                &&& after.entries.contains_key(task)
                &&& after.entries[task].id == request.id
                &&& after.entries[task].state == (StateView::Loading {
                    task,
                    resource_type: request.resource_type,
                    waiters: Seq::empty(),
                })
            }
            &&& answer is Some ==> after.cache == manager.cache
            &&& after.state_of(other) == manager.state_of(other)
            &&& after.sources == manager.sources
        }),
{
    if manager.cache.contains_key(other) {
        assert(manager.entries[manager.cache[other]].id == other);
    }
    if manager.cache.contains_key(request.id) {
        assert(manager.entries[manager.cache[request.id]].id == request.id);
    }
}

/// An entry that is asked keeps its identifier, and its state follows the request; the sources are
/// watched up to where a load that has ended took its data from, and are watched as before otherwise.
pub proof fn lemma_asked_entries<S: ResourceSource>(
    manager: ManagerView<S>,
    entry: u64,
    requested: u64,
    outcome: Option<OutcomeView>,
    other: u64,
)
    requires
        manager.entries.contains_key(entry),
    ensures
        ({
            let after = manager.asked(entry, requested, outcome);
            let state = manager.entries[entry].state;
            let has_ended = outcome is Some && (state matches StateView::Loading { resource_type, .. }
                && resource_type == requested);
            &&& after.cache == manager.cache
            &&& after.entries[entry].id == manager.entries[entry].id
            &&& !has_ended ==> after.entries[entry].state == state && after.watchers == manager.watchers
            &&& has_ended ==> after.watchers == watch_n(
                manager.watchers,
                manager.entries[entry].id,
                outcome.unwrap().source_idx,
            )
            &&& has_ended ==> !(after.entries[entry].state is Loading)
            &&& other != entry && manager.entries.contains_key(other) ==> after.entries[other] == manager.entries[other]
        }),
{
}

/// Somebody who begins to wait for an entry that is being loaded comes last among those who wait; an
/// entry that is not being loaded is not waited for.
pub proof fn lemma_waiting_for_entries<S: ResourceSource>(manager: ManagerView<S>, entry: u64, waiter: u64)
    requires
        manager.entries.contains_key(entry),
    ensures
        ({
            let after = manager.awaited(entry, waiter);
            &&& after.cache == manager.cache && after.watchers == manager.watchers
            &&& match manager.entries[entry].state {
                StateView::Loading { task, resource_type, waiters } => {
                    &&& after.entries[entry].id == manager.entries[entry].id
                    &&& after.entries[entry].state == (StateView::Loading {
                        task,
                        resource_type,
                        waiters: waiters + seq![waiter],
                    })
                    &&& is_taken(after.entries[entry].state)
                },
                _ => after == manager,
            }
        }),
{
    if let StateView::Loading { task, resource_type, waiters } = manager.entries[entry].state {
        assert(waiters.push(waiter) =~= waiters + seq![waiter]);
    }
}

/// An update waits if and only if the entry is being updated, or is being loaded for somebody who
/// waits.
pub proof fn lemma_updates_wait<S: ResourceSource>(manager: ManagerView<S>, update: PendingView, live: Seq<u64>)
    requires
        manager.entries.contains_key(update.entry),
    ensures
        manager.begins(update, live) is Wait <==> {
            ||| manager.entries[update.entry].state is Updating
            ||| manager.entries[update.entry].state matches StateView::Loading { waiters, .. } && waiters.len() > 0
        },
        manager.begins(update, live) is Wait ==> manager.begins(update, live) == BegunView::Wait(update)
            && manager.begun(update, live) == manager,
        manager.begins(update, live) matches BegunView::Apply { entry, resource, source_idx, data } ==> {
            &&& entry == update.entry
            &&& source_idx == update.source_idx
            &&& live.contains(resource)
            &&& manager.entries[entry].state matches StateView::CachedValue(value) && value.resource == resource
                && value.hash != update.hash
            &&& load_at(manager.sources, update.id, source_idx) == Some(Ok::<SealedDataView, LoadErrorView>(data))
        },
{
}

/// What polling a request gives: its result, if it was there at once; what its entry answers, as long
/// as the entry is there and, unless somebody waits already, cached; the request is made anew if it is
/// not, or if the resource is gone.
pub proof fn lemma_polled_requests<S: ResourceSource>(
    manager: ManagerView<S>,
    entry: u64,
    request: Request,
    outcome: Option<OutcomeView>,
    live: Seq<u64>,
    waiter: u64,
    result: Result<u64, LoadErrorView>,
)
    ensures
        ({
            let delayed = FutureView::Delayed { entry, request };
            let awaiting = FutureView::Awaiting { entry, request };
            let own = manager.entries[entry].state.answer(request.resource_type, outcome, live);
            let is_cached = exists|id: ResourceId| #[trigger]
                manager.cache.contains_key(id) && manager.cache[id] == entry;
            let answered = match own {
                Some(GetView::Found(resource)) => FuturePollView::Ready(Ok(resource)),
                Some(GetView::Failed(error)) => FuturePollView::Ready(Err(error)),
                Some(GetView::Expired) => FuturePollView::Reload(request),
                None => FuturePollView::Pending,
            };
            &&& FutureView::Immediate(result).poll(manager, outcome, live) == FuturePollView::Ready(result)
            &&& FutureView::Immediate(result).await_manager(manager, waiter, outcome, live) == manager
            &&& manager.entries.contains_key(entry) ==> awaiting.poll(manager, outcome, live) == answered
            &&& manager.entries.contains_key(entry) && is_cached ==> delayed.poll(manager, outcome, live) == answered
            &&& !manager.entries.contains_key(entry) ==> awaiting.poll(manager, outcome, live)
                == FuturePollView::Reload(request) && delayed.poll(manager, outcome, live) == FuturePollView::Reload(
                request,
            )
            &&& !is_cached ==> delayed.poll(manager, outcome, live) == FuturePollView::Reload(request)
            &&& awaiting.await_manager(manager, waiter, outcome, live) == awaiting.poll_manager(manager, outcome)
            &&& delayed.poll(manager, outcome, live) is Pending ==> delayed.await_manager(
                manager,
                waiter,
                outcome,
                live,
            ) == delayed.poll_manager(manager, outcome).awaited(entry, waiter)
            &&& !(delayed.poll(manager, outcome, live) is Pending) ==> delayed.await_manager(
                manager,
                waiter,
                outcome,
                live,
            ) == delayed.poll_manager(manager, outcome)
            &&& manager.entries.contains_key(entry) ==> awaiting.poll_manager(manager, outcome) == manager.asked(
                entry,
                request.resource_type,
                outcome,
            )
        }),
{
}

/// Other data from a source that comes after the one of a resource, however it is reported, leaves
/// the resource alone; so does what is reported of a load that nobody waits for. The sources are
/// watched up to where the data is.
pub proof fn lemma_passed_over_data_is_watched<S: ResourceSource>(
    manager: ManagerView<S>,
    id: ResourceId,
    at: SourceIndex,
    update: UpdateView,
    hash: Seq<char>,
    live: Seq<u64>,
)
    requires
        manager.consistent(),
        manager.state_of(id) is Some,
        match manager.state_of(id).unwrap() {
            StateView::CachedValue(value) => value.source_idx.before(at) && value.hash != hash,
            StateView::Loading { waiters, .. } => waiters.len() == 0,
            _ => false,
        },
        update == UpdateView::Added(hash) || update == UpdateView::Modified(hash),
        at.idx < manager.sources.len(),
    ensures
        manager.update_begins(id, at, update, live) is Nothing,
        manager.update_begun(id, at, update, live) == (ManagerView {
            watchers: watch_n(manager.watchers, id, at),
            ..manager
        }),
{
    assert(manager.cache.contains_key(id));
    if let StateView::CachedValue(value) = manager.state_of(id).unwrap() {
        crate::resource::source::lemma_index_order_irreflexive(at);
        if value.source_idx != at {
            crate::resource::source::lemma_index_order_total(value.source_idx, at);
        }
    }
}

} // verus!
