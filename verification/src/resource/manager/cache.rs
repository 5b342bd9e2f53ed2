//! All cached resources, and the steps of loading and updating them.
use vstd::prelude::*;

use crate::resource::id::ResourceId;
use crate::resource::manager::dependency::{DependencyGraph, DependencyGraphLayer};
use crate::resource::manager::group::{
    lemma_put_twice, nth_task, CacheGroup, CacheGroupUpdateResult, GroupOutcome, GroupView,
};
use crate::resource::manager::load::{
    load_result, polled_result, CacheEntryState, CacheEntryTyped, EntryGetResult, EntryView, GetView,
    LoadPolled, MetadataView, ResourceLoadOperation, ResourceTaskData, StartedUpdate, StateView,
};
use crate::resource::manager::source::Sources;
use crate::resource::manager::task::TaskPriority;
use crate::resource::source::{
    ResourceSource, ResourceUpdate, SealedResourceData, SealedResourceDataSource, SourceIndex,
};
use crate::resource::{LoadErrorView, ResKey, ResourceLoadError};
use crate::util::table::{lemma_seq_with, IdMap, IdSet};
use crate::util::waker::MultiWaker;

verus! {

/// The mathematical value of a [`Cache`].
pub struct CacheView {
    pub groups: Map<ResourceId, GroupView>,
    /// The lists of those who wait; a list that is not there is empty.
    pub lists: Map<u64, Seq<u64>>,
}

impl CacheView {
    /// The entries of an identifier.
    pub open spec fn group(self, id: ResourceId) -> GroupView {
        if self.groups.contains_key(id) {
            self.groups[id]
        } else {
            GroupView::empty()
        }
    }

    /// The cache with other entries for an identifier.
    pub open spec fn with_group(self, id: ResourceId, group: GroupView) -> CacheView {
        CacheView { groups: self.groups.insert(id, group), ..self }
    }

    /// The cache in which the identifier has a group, if only an empty one.
    pub open spec fn init_group(self, id: ResourceId) -> CacheView {
        self.with_group(id, self.group(id))
    }

    /// Those who wait in a list.
    pub open spec fn waiters(self, list: u64) -> Seq<u64> {
        if self.lists.contains_key(list) {
            self.lists[list]
        } else {
            Seq::empty()
        }
    }

    /// The cache after somebody has joined a list.
    pub open spec fn join(self, list: u64, waiter: u64) -> CacheView {
        CacheView { lists: self.lists.insert(list, self.waiters(list).push(waiter)), ..self }
    }

    /// The cache after everybody has gone from one list to another.
    pub open spec fn merge(self, into: u64, from: u64) -> CacheView {
        if into == from {
            self
        } else {
            CacheView {
                lists: self.lists.insert(from, Seq::empty()).insert(
                    into,
                    self.waiters(into) + self.waiters(from),
                ),
                ..self
            }
        }
    }

    /// The state that a finished resource gets: kept alive if somebody waits for it.
    pub open spec fn settled(self, list: u64, resource: u64) -> StateView {
        if self.waiters(list).len() > 0 {
            StateView::Loaded { strong: resource }
        } else {
            StateView::Value { weak: Some(resource) }
        }
    }

    /// Whether the cache has an entry for a key.
    pub open spec fn has_entry(self, key: ResKey) -> bool {
        self.groups.contains_key(key.id) && self.groups[key.id].entries.contains_key(key)
    }

    /// The entry of a key.
    pub open spec fn entry(self, key: ResKey) -> EntryView {
        self.groups[key.id].entries[key]
    }

    /// The cache with an entry in place of any that the key had.
    pub open spec fn put(self, key: ResKey, entry: EntryView) -> CacheView {
        self.with_group(key.id, self.group(key.id).put(key, entry))
    }

    /// The cache without the entry of a key.
    pub open spec fn drop_key(self, key: ResKey) -> CacheView {
        self.with_group(key.id, self.group(key.id).drop_key(key))
    }

    /// The cache after it was told what data a resource was loaded from. Only a source that comes
    /// before the present one counts.
    pub open spec fn update_metadata(self, id: ResourceId, hash: Seq<char>, source_idx: SourceIndex) -> CacheView {
        if self.groups.contains_key(id) && source_idx.before(self.groups[id].metadata.source_idx) {
            self.with_group(
                id,
                GroupView {
                    metadata: MetadataView { hash: Some(hash), source_idx },
                    ..self.groups[id]
                },
            )
        } else {
            self
        }
    }
}

/// What asking the cache for a resource gives.
#[derive(Debug)]
pub enum CacheGet {
    /// The final result.
    Cached(Result<u64, ResourceLoadError>),
    /// The resource is being loaded, and the caller waits for it.
    Waiting,
    /// A load has to be started.
    MustLoad,
}

/// The mathematical value of a [`CacheGet`].
pub enum CacheGetView {
    Cached(Result<u64, LoadErrorView>),
    Waiting,
    MustLoad,
}

impl View for CacheGet {
    type V = CacheGetView;

    open spec fn view(&self) -> CacheGetView {
        match self {
            CacheGet::Cached(result) => CacheGetView::Cached(load_result(*result)),
            CacheGet::Waiting => CacheGetView::Waiting,
            CacheGet::MustLoad => CacheGetView::MustLoad,
        }
    }
}

/// What an answer of an entry amounts to.
pub open spec fn settle(answer: Option<GetView>, force_retry: bool) -> CacheGetView {
    match answer {
        Some(get) => match get.try_result(force_retry) {
            Some(result) => CacheGetView::Cached(result),
            None => CacheGetView::MustLoad,
        },
        None => CacheGetView::Waiting,
    }
}

impl CacheView {
    /// What asking for a key gives. An entry that has no answer ready is polled.
    pub open spec fn get_answer(
        self,
        key: ResKey,
        force_retry: bool,
        polled: Option<Result<u64, LoadErrorView>>,
        live: Seq<u64>,
    ) -> CacheGetView {
        if !self.has_entry(key) {
            CacheGetView::MustLoad
        } else {
            match self.entry(key).try_get(live) {
                Some(get) => settle(Some(get), force_retry),
                None => settle(self.entry(key).poll_answer(polled, live), force_retry),
            }
        }
    }

    /// The cache after asking: an entry that is polled takes note of who asks.
    pub open spec fn get_after(
        self,
        key: ResKey,
        waiter: Option<u64>,
        polled: Option<Result<u64, LoadErrorView>>,
        live: Seq<u64>,
    ) -> CacheView {
        if !self.has_entry(key) || self.entry(key).try_get(live).is_some() {
            self
        } else {
            let joined = match (waiter, self.entry(key).waiting_list()) {
                (Some(w), Some(list)) => self.join(list, w),
                _ => self,
            };
            joined.put(key, self.entry(key).polled(polled))
        }
    }

    /// Whether asking polls the load task.
    pub open spec fn polls_load(self, key: ResKey) -> bool {
        self.has_entry(key) && self.entry(key).state is Loading
    }

    /// The cache after a load was started, and polled once.
    pub open spec fn start_load(
        self,
        key: ResKey,
        is_virtual: bool,
        task: u64,
        waiter: u64,
        first: Option<Result<u64, LoadErrorView>>,
    ) -> CacheView {
        let entry = EntryView { is_virtual, state: StateView::Loading { task, wakers: task } };
        CacheView { lists: self.lists.insert(task, seq![waiter]), ..self }.put(key, entry.polled(first))
    }
}

/// All cached resources.
pub struct Cache {
    groups: IdMap<ResourceId, CacheGroup>,
    lists: IdMap<u64, MultiWaker>,
}

impl View for Cache {
    type V = CacheView;

    closed spec fn view(&self) -> CacheView {
        CacheView {
            groups: self.groups@.map_values(|g: CacheGroup| g@),
            lists: self.lists@.map_values(|w: MultiWaker| w@),
        }
    }
}

/// What is to be done after new contents for a resource have been loaded.
#[derive(Debug, Clone, Copy, PartialEq, Eq, Structural)]
pub enum UpdateAction {
    /// Nothing more.
    Done,
    /// Hand the new contents to the resource, and then finish the update with it.
    Apply(u64),
}

/// An update of one entry.
#[derive(Debug)]
pub struct UpdateWork {
    pub key: ResKey,
    pub is_virtual: bool,
    pub source_idx: SourceIndex,
    pub wakers: u64,
}

impl UpdateWork {
    /// The work of an update that was started.
    pub fn new(update: &StartedUpdate) -> (r: Self)
        ensures
            r.key == update.key,
            r.is_virtual == update.is_virtual,
            r.source_idx == update.source_idx,
            r.wakers == update.wakers,
    {
        UpdateWork {
            key: update.key,
            is_virtual: update.is_virtual,
            source_idx: update.source_idx.clone(),
            wakers: update.wakers,
        }
    }
}

impl CacheView {
    /// The cache after new contents could not be loaded: the resource stays as it is.
    pub open spec fn update_failed(self, work: UpdateWork) -> CacheView {
        if self.has_entry(work.key) {
            match self.entry(work.key).state {
                StateView::Updating { weak, .. } => self.put(
                    work.key,
                    self.entry(work.key).with(StateView::Value { weak }),
                ),
                _ => self,
            }
        } else {
            self
        }
    }

    /// The cache after new contents were loaded for a resource that is not there (any more): they
    /// become a resource of their own if somebody waits for it.
    pub open spec fn output_requested(self, work: UpdateWork, resource: u64) -> CacheView {
        if self.waiters(work.wakers).len() > 0 {
            self.put(
                work.key,
                EntryView { is_virtual: work.is_virtual, state: StateView::Loaded { strong: resource } },
            )
        } else {
            self.drop_key(work.key)
        }
    }

    /// The resource that new contents are for.
    pub open spec fn update_target(self, work: UpdateWork, live: Seq<u64>) -> Option<u64> {
        if self.has_entry(work.key) {
            match self.entry(work.key).state {
                StateView::Loaded { strong } => Some(strong),
                StateView::Value { weak } | StateView::Updating { weak, .. } => match GetView::from_weak(
                    weak,
                    live,
                ) {
                    GetView::Found(resource) => Some(resource),
                    _ => None,
                },
                _ => None,
            }
        } else {
            None
        }
    }

    /// Whether the entry is being loaded for the first time meanwhile: then the new contents are what
    /// is waited for.
    pub open spec fn update_finds_loading(self, work: UpdateWork) -> bool {
        self.has_entry(work.key) && self.entry(work.key).state is Loading
    }

    /// The cache after new contents were loaded.
    pub open spec fn update_loaded(self, work: UpdateWork, resource: u64, live: Seq<u64>) -> CacheView {
        if self.update_finds_loading(work) {
            let entry = self.entry(work.key);
            let merged = self.merge(work.wakers, entry.waiting_list().unwrap());
            merged.put(work.key, entry.with(merged.settled(work.wakers, resource)))
        } else if self.update_target(work, live).is_some() {
            self.init_group(work.key.id)
        } else {
            self.output_requested(work, resource)
        }
    }

    /// Whether the new contents are used, so that what they depend on counts.
    pub open spec fn update_applies(self, work: UpdateWork, live: Seq<u64>) -> bool {
        self.update_finds_loading(work) || self.update_target(work, live).is_some()
    }

    /// The cache after a resource got its new contents.
    pub open spec fn update_finished(self, work: UpdateWork, resource: u64) -> CacheView {
        let state = self.settled(work.wakers, resource);
        if self.has_entry(work.key) {
            self.put(work.key, self.entry(work.key).with(state))
        } else {
            self.put(work.key, EntryView { is_virtual: work.is_virtual, state })
        }
    }
}

impl Cache {
    /// All groups are in order.
    pub closed spec fn wf(&self) -> bool {
        &&& self.groups.wf()
        &&& self.lists.wf()
        &&& forall|id: ResourceId| #[trigger] self.groups@.contains_key(id) ==> self.groups@[id].wf()
    }

    /// The visited keys of a group are those of its entries, each once, and the types of their loaders
    /// are noted.
    pub proof fn lemma_group_order(&self, id: ResourceId)
        requires
            self.wf(),
        ensures
            self@.group(id).order.no_duplicates(),
            forall|k: ResKey| #[trigger]
                self@.group(id).order.contains(k) <==> self@.group(id).entries.contains_key(k),
            forall|k: ResKey| #[trigger]
                self@.group(id).entries.contains_key(k) ==> self@.group(id).has_loader(k.loader_type),
    {
        if self@.groups.contains_key(id) {
            assert(self.groups@.contains_key(id));
            self.groups@[id].lemma_order();
        }
    }

    /// Nothing is cached.
    pub fn new() -> (r: Self)
        ensures
            r.wf(),
            r@.groups == Map::<ResourceId, GroupView>::empty(),
            r@.lists == Map::<u64, Seq<u64>>::empty(),
    {
        let r = Cache { groups: IdMap::new(), lists: IdMap::new() };
        assert(r@.groups =~= Map::<ResourceId, GroupView>::empty());
        assert(r@.lists =~= Map::<u64, Seq<u64>>::empty());
        r
    }

    /// Forgets everything that is cached.
    pub fn clear(&mut self)
        requires
            old(self).wf(),
        ensures
            final(self).wf(),
            final(self)@.groups == Map::<ResourceId, GroupView>::empty(),
            final(self)@.lists == old(self)@.lists,
    {
        self.groups.clear();
        assert(self@.groups =~= Map::<ResourceId, GroupView>::empty());
    }

    /// Takes a group out, to be put back.
    fn take_group(&mut self, id: &ResourceId) -> (r: CacheGroup)
        requires
            old(self).wf(),
        ensures
            final(self).wf(),
            r.wf(),
            r@ == old(self)@.group(*id),
            final(self)@ == (CacheView { groups: old(self)@.groups.remove(*id), ..old(self)@ }),
    {
        let ghost pre = *self;
        let taken = self.groups.remove(id);
        assert(self@.groups =~= pre@.groups.remove(*id));
        match taken {
            Some(group) => group,
            None => CacheGroup::new(),
        }
    }

    fn put_group(&mut self, id: ResourceId, group: CacheGroup)
        requires
            old(self).wf(),
            group.wf(),
        ensures
            final(self).wf(),
            final(self)@ == old(self)@.with_group(id, group@),
    {
        let ghost pre = *self;
        let ghost g = group;
        let _ = self.groups.insert(id, group);
        assert(self@.groups =~= pre@.groups.insert(id, g@));
    }

    /// Whether an identifier has a group.
    pub fn has_group(&self, id: &ResourceId) -> (r: bool)
        requires
            self.wf(),
        ensures
            r == self@.groups.contains_key(*id),
    {
        self.groups.contains_key(id)
    }

    /// The number of entries of an identifier.
    pub fn group_len(&self, id: &ResourceId) -> (r: usize)
        requires
            self.wf(),
        ensures
            r == self@.group(*id).order.len(),
    {
        match self.groups.get(id) {
            Some(group) => group.len(),
            None => 0,
        }
    }

    /// Makes sure that an identifier has a group.
    pub fn init_group(&mut self, id: &ResourceId)
        requires
            old(self).wf(),
        ensures
            final(self).wf(),
            final(self)@ == old(self)@.init_group(*id),
    {
        let ghost pre = self@;
        let group = self.take_group(id);
        self.put_group(*id, group);
        assert(self@.groups =~= pre.init_group(*id).groups);
    }

    /// Whether nobody waits in a list.
    pub fn nobody_waits(&self, list: u64) -> (r: bool)
        requires
            self.wf(),
        ensures
            r == (self@.waiters(list).len() == 0),
    {
        match self.lists.get(&list) {
            Some(waiters) => waiters.is_empty(),
            None => true,
        }
    }

    /// Adds somebody to a list.
    fn join(&mut self, list: u64, waiter: u64)
        requires
            old(self).wf(),
        ensures
            final(self).wf(),
            final(self)@ == old(self)@.join(list, waiter),
    {
        let ghost pre = *self;
        let mut waiters = match self.lists.remove(&list) {
            Some(waiters) => waiters,
            None => MultiWaker::new(),
        };
        assert(waiters@ == pre@.waiters(list));
        waiters.push(waiter);
        let ghost w = waiters@;
        let _ = self.lists.insert(list, waiters);
        assert(self@.lists =~= pre@.lists.insert(list, w));
    }

    /// Moves everybody from one list to another.
    fn merge(&mut self, into: u64, from: u64)
        requires
            old(self).wf(),
        ensures
            final(self).wf(),
            final(self)@ == old(self)@.merge(into, from),
    {
        if into != from {
            let ghost pre = *self;
            let mut a = match self.lists.remove(&into) {
                Some(waiters) => waiters,
                None => MultiWaker::new(),
            };
            let mut b = match self.lists.remove(&from) {
                Some(waiters) => waiters,
                None => MultiWaker::new(),
            };
            assert(a@ == pre@.waiters(into));
            assert(b@ == pre@.waiters(from));
            a.extend(&mut b);
            let ghost x = a@;
            let _ = self.lists.insert(from, b);
            let _ = self.lists.insert(into, a);
            assert(self@.lists =~= pre@.lists.insert(from, Seq::empty()).insert(into, x));
        }
    }

    /// Wakes a list: those who are still alive stay in it, and are returned.
    pub fn wake(&mut self, list: u64, alive: &IdSet<u64>) -> (r: Vec<u64>)
        requires
            old(self).wf(),
        ensures
            final(self).wf(),
            r@ == crate::util::waker::living(old(self)@.waiters(list), alive@),
            final(self)@ == (CacheView {
                lists: old(self)@.lists.insert(list, r@),
                ..old(self)@
            }),
    {
        let ghost pre = *self;
        let mut waiters = match self.lists.remove(&list) {
            Some(waiters) => waiters,
            None => MultiWaker::new(),
        };
        assert(waiters@ == pre@.waiters(list));
        let woken = waiters.wake(alive);
        let ghost w = waiters@;
        let _ = self.lists.insert(list, waiters);
        assert(self@.lists =~= pre@.lists.insert(list, w));
        woken
    }

    /// Notes what data a resource was loaded from, if that source comes before the present one.
    pub fn update_metadata(&mut self, id: &ResourceId, hash: String, source_idx: SourceIndex)
        requires
            old(self).wf(),
        ensures
            final(self).wf(),
            final(self)@ == old(self)@.update_metadata(*id, hash@, source_idx),
    {
        let ghost pre = self@;
        let earlier = match self.groups.get(id) {
            Some(group) => source_idx.lt(&group.metadata().source_idx),
            None => false,
        };
        if earlier {
            let mut group = self.take_group(id);
            group.set_metadata(Some(hash), source_idx);
            self.put_group(*id, group);
            assert(self@.groups =~= pre.update_metadata(*id, hash@, source_idx).groups);
        }
    }

    /// Asks for a resource. An entry that has no answer ready is polled, and `waiter` joins those who
    /// wait for it. `polled` is what polling the entry's load task gave.
    pub fn get(
        &mut self,
        key: &ResKey,
        force_retry: bool,
        waiter: Option<u64>,
        polled: LoadPolled,
        live: &IdSet<u64>,
        graph: &mut DependencyGraph,
    ) -> (r: CacheGet)
        requires
            old(self).wf(),
            old(graph).wf(),
            crate::resource::manager::load::polled_wf(polled),
        ensures
            final(self).wf(),
            final(graph).wf(),
            final(self)@ == old(self)@.get_after(*key, waiter, polled_result(polled), live@),
            final(graph)@ == (if old(self)@.polls_load(*key) {
                crate::resource::manager::load::graph_after_poll(old(graph)@, old(self)@.entry(*key), polled)
            } else {
                old(graph)@
            }),
            r@ == old(self)@.get_answer(*key, force_retry, polled_result(polled), live@),
    {
        let ghost pre = self@;
        let (ready, list): (Option<EntryGetResult>, Option<u64>) = match self.groups.get(&key.id) {
            Some(group) => match group.get(key) {
                Some(entry) => (entry.try_get(live), entry.waiting_list()),
                None => return CacheGet::MustLoad,
            },
            None => return CacheGet::MustLoad,
        };
        match ready {
            Some(answer) => match answer.try_result(force_retry) {
                Some(result) => CacheGet::Cached(result),
                None => CacheGet::MustLoad,
            },
            None => {
                match (waiter, list) {
                    (Some(w), Some(l)) => {
                        self.join(l, w);
                    },
                    _ => {},
                }
                let ghost joined = self@;
                let mut group = self.take_group(&key.id);
                let mut answer: Option<EntryGetResult> = None;
                let ghost g = group@;
                let vacant = CacheEntryTyped::from_parts(*key, false, CacheEntryState::Value { weak: None });
                let ghost v = vacant@;
                match group.insert(vacant) {
                    Some(entry) => {
                        let mut entry = entry;
                        answer = entry.poll(polled, live, graph);
                        let ghost e = entry@;
                        let _ = group.insert(entry);
                        proof {
                            lemma_put_twice(g, *key, v, e);
                        }
                    },
                    None => {},
                }
                self.put_group(key.id, group);
                proof {
                    let want = pre.get_after(*key, waiter, polled_result(polled), live@);
                    assert(self@.groups =~= want.groups);
                }
                match answer {
                    Some(answer) => match answer.try_result(force_retry) {
                        Some(result) => CacheGet::Cached(result),
                        None => CacheGet::MustLoad,
                    },
                    None => CacheGet::Waiting,
                }
            },
        }
    }

    /// Starts to load a resource. `first` is what polling the new task for the first time gave; as
    /// long as that is nothing, `waiter` waits.
    pub fn start_load_task(
        &mut self,
        key: &ResKey,
        is_virtual: bool,
        task: u64,
        waiter: u64,
        first: LoadPolled,
        graph: &mut DependencyGraph,
    ) -> (r: Option<Result<u64, ResourceLoadError>>)
        requires
            old(self).wf(),
            old(graph).wf(),
            crate::resource::manager::load::polled_wf(first),
        ensures
            final(self).wf(),
            final(graph).wf(),
            final(self)@ == old(self)@.start_load(*key, is_virtual, task, waiter, polled_result(first)),
            final(graph)@ == crate::resource::manager::load::graph_after_poll(
                old(graph)@,
                EntryView { is_virtual, state: StateView::Loading { task, wakers: task } },
                first,
            ),
            match r {
                Some(result) => polled_result(first) == Some(load_result(result)),
                None => first.is_none(),
            },
    {
        let ghost pre = *self;
        let mut waiters = MultiWaker::new();
        waiters.push(waiter);
        assert(waiters@ =~= seq![waiter]);
        let _ = self.lists.insert(task, waiters);
        assert(self@.lists =~= pre@.lists.insert(task, seq![waiter]));
        assert(self@.groups =~= pre@.groups);
        let ghost listed = self@;
        let mut entry = CacheEntryTyped::from_load_task(*key, is_virtual, task);
        let nothing: IdSet<u64> = IdSet::new();
        let answer = entry.poll(first, &nothing, graph);
        let ghost e = entry@;
        let mut group = self.take_group(&key.id);
        let _ = group.insert(entry);
        self.put_group(key.id, group);
        assert(self@.groups =~= listed.put(*key, e).groups);
        match answer {
            Some(answer) => answer.try_result(false),
            None => None,
        }
    }

    /// Asks for a resource, and starts to load it if need be.
    pub fn get_or_load(
        &mut self,
        key: &ResKey,
        force_retry: bool,
        waiter: u64,
        polled: LoadPolled,
        live: &IdSet<u64>,
        graph: &mut DependencyGraph,
    ) -> (r: CacheGet)
        requires
            old(self).wf(),
            old(graph).wf(),
            crate::resource::manager::load::polled_wf(polled),
        ensures
            final(self).wf(),
            final(graph).wf(),
            final(self)@ == old(self)@.init_group(key.id).get_after(
                *key,
                Some(waiter),
                polled_result(polled),
                live@,
            ),
            final(graph)@ == (if old(self)@.polls_load(*key) {
                crate::resource::manager::load::graph_after_poll(old(graph)@, old(self)@.entry(*key), polled)
            } else {
                old(graph)@
            }),
            r@ == old(self)@.get_answer(*key, force_retry, polled_result(polled), live@),
    {
        let ghost pre = self@;
        self.init_group(&key.id);
        proof {
            let mid = pre.init_group(key.id);
            assert(mid.has_entry(*key) == pre.has_entry(*key));
            assert(pre.has_entry(*key) ==> mid.entry(*key) == pre.entry(*key));
        }
        self.get(key, force_retry, Some(waiter), polled, live, graph)
    }

    /// Asks again for a resource that is waited for. Where it is gone, it has to be loaded anew.
    pub fn poll_load(
        &mut self,
        key: &ResKey,
        polled: LoadPolled,
        live: &IdSet<u64>,
        graph: &mut DependencyGraph,
    ) -> (r: CacheGet)
        requires
            old(self).wf(),
            old(graph).wf(),
            crate::resource::manager::load::polled_wf(polled),
        ensures
            final(self).wf(),
            final(graph).wf(),
            final(self)@ == old(self)@.init_group(key.id).get_after(
                *key,
                None,
                polled_result(polled),
                live@,
            ),
            final(graph)@ == (if old(self)@.polls_load(*key) {
                crate::resource::manager::load::graph_after_poll(old(graph)@, old(self)@.entry(*key), polled)
            } else {
                old(graph)@
            }),
            r@ == old(self)@.get_answer(*key, false, polled_result(polled), live@),
    {
        let ghost pre = self@;
        self.init_group(&key.id);
        proof {
            let mid = pre.init_group(key.id);
            assert(mid.has_entry(*key) == pre.has_entry(*key));
            assert(pre.has_entry(*key) ==> mid.entry(*key) == pre.entry(*key));
        }
        self.get(key, false, None, polled, live, graph)
    }

    /// The data that a loader gets. A virtual resource gets none. `found` is what searching the
    /// sources gave: where that is data, its source is noted, and, for a first load, watched up to.
    pub fn data_for_load<S: ResourceSource>(
        &mut self,
        sources: &mut Sources<S>,
        id: &ResourceId,
        is_virtual: bool,
        operation: ResourceLoadOperation,
        found: Option<Result<SealedResourceData, ResourceLoadError>>,
    ) -> (r: Result<Vec<u8>, ResourceLoadError>)
        requires
            old(self).wf(),
            old(sources).wf(),
        ensures
            final(self).wf(),
            final(sources).wf(),
            final(sources).list() == old(sources).list(),
            is_virtual ==> {
                &&& r.is_ok() && r->Ok_0@ == Seq::<u8>::empty()
                &&& final(self)@ == old(self)@
                &&& final(sources).watcher_states() == old(sources).watcher_states()
            },
            !is_virtual ==> match crate::resource::manager::source::found(found) {
                Some(Ok(data)) => {
                    &&& r.is_ok() && r->Ok_0@ == data.data
                    &&& final(self)@ == old(self)@.update_metadata(*id, data.source.hash, data.source.idx)
                    &&& final(sources).watcher_states() == (if operation == ResourceLoadOperation::Load {
                        crate::resource::manager::source::watch_n(
                            old(sources).watcher_states(),
                            *id,
                            data.source.idx,
                        )
                    } else {
                        old(sources).watcher_states()
                    })
                },
                Some(Err(error)) => {
                    &&& r.is_err() && r->Err_0@ == error
                    &&& final(self)@ == old(self)@
                    &&& final(sources).watcher_states() == old(sources).watcher_states()
                },
                None => {
                    &&& r.is_err() && r->Err_0@ == LoadErrorView::NotFound(*id)
                    &&& final(self)@ == old(self)@
                    &&& final(sources).watcher_states() == old(sources).watcher_states()
                },
            },
    {
        if is_virtual {
            return Ok(Vec::new());
        }
        match found {
            Some(Ok(data)) => {
                if operation == ResourceLoadOperation::Load {
                    sources.watch_n(id, &data.source.idx);
                }
                self.update_metadata(id, data.source.hash, data.source.idx);
                Ok(data.data)
            },
            Some(Err(error)) => Err(error),
            None => Err(ResourceLoadError::NotFound(*id)),
        }
    }

    /// Puts new contents in place of a resource that is not there (any more).
    fn output_requested(&mut self, work: &UpdateWork, resource: u64)
        requires
            old(self).wf(),
        ensures
            final(self).wf(),
            final(self)@ == old(self)@.output_requested(*work, resource),
    {
        let ghost pre = self@;
        let empty = self.nobody_waits(work.wakers);
        let mut group = self.take_group(&work.key.id);
        if empty {
            let _ = group.remove(&work.key);
        } else {
            let _ = group.insert(
                CacheEntryTyped::from_parts(
                    work.key,
                    work.is_virtual,
                    CacheEntryState::Loaded { strong: resource },
                ),
            );
        }
        self.put_group(work.key.id, group);
        assert(self@.groups =~= pre.output_requested(*work, resource).groups);
    }

    /// Goes on with an update after its load has ended.
    ///
    /// A failed load leaves the resource as it is. Otherwise the new contents go to the resource, if
    /// it is there; they become the resource that is waited for, if it is being loaded or somebody
    /// waits; or they are thrown away. Where they are used, what they depend on enters the graph,
    /// and the sources are watched up to where they came from.
    pub fn update_loaded<S: ResourceSource>(
        &mut self,
        work: &UpdateWork,
        result: Result<ResourceTaskData, ResourceLoadError>,
        live: &IdSet<u64>,
        graph: &mut DependencyGraph,
        sources: &mut Sources<S>,
    ) -> (r: UpdateAction)
        requires
            old(self).wf(),
            old(graph).wf(),
            old(sources).wf(),
            result.is_ok() ==> result->Ok_0.dependencies.wf(),
        ensures
            final(self).wf(),
            final(graph).wf(),
            final(sources).wf(),
            final(sources).list() == old(sources).list(),
            match result {
                Err(_) => {
                    &&& r == UpdateAction::Done
                    &&& final(self)@ == old(self)@.update_failed(*work)
                    &&& final(graph)@ == old(graph)@
                    &&& final(sources).watcher_states() == old(sources).watcher_states()
                },
                Ok(data) => {
                    &&& final(self)@ == old(self)@.update_loaded(*work, data.resource, live@)
                    &&& r == (match old(self)@.update_target(*work, live@) {
                        Some(resource) => UpdateAction::Apply(resource),
                        None => UpdateAction::Done,
                    })
                    &&& final(graph)@ == (if old(self)@.update_applies(*work, live@) {
                        old(graph)@.set_dependencies(
                            data.dependencies.subject(),
                            data.dependencies.discovered(),
                        )
                    } else {
                        old(graph)@
                    })
                    &&& final(sources).watcher_states() == (if old(self)@.update_applies(*work, live@) {
                        crate::resource::manager::source::watch_n(
                            old(sources).watcher_states(),
                            work.key.id,
                            work.source_idx,
                        )
                    } else {
                        old(sources).watcher_states()
                    })
                },
            },
    {
        let ghost pre = self@;
        let data = match result {
            Ok(data) => data,
            Err(_) => {
                self.fail_update(work);
                return UpdateAction::Done;
            },
        };
        let resource: u64 = data.resource;
        let mut target: Option<u64> = None;
        let mut loading: Option<(bool, u64)> = None;
        match self.groups.get(&work.key.id) {
            Some(group) => match group.get(&work.key) {
                Some(entry) => match &entry.inner {
                    CacheEntryState::Loading { wakers, .. } => {
                        loading = Some((entry.is_virtual, *wakers));
                    },
                    CacheEntryState::Loaded { strong } => {
                        target = Some(*strong);
                    },
                    CacheEntryState::Value { weak } | CacheEntryState::Updating { weak, .. } => {
                        match weak {
                            Some(resource) => {
                                if live.contains(resource) {
                                    target = Some(*resource);
                                }
                            },
                            None => {},
                        }
                    },
                    CacheEntryState::Error(_) => {},
                },
                None => {},
            },
            None => {},
        }
        assert(target == pre.update_target(*work, live@));
        assert(loading.is_some() == pre.update_finds_loading(*work));
        match loading {
            Some((is_virtual, list)) => {
                self.merge(work.wakers, list);
                let ghost merged = self@;
                let inner = if self.nobody_waits(work.wakers) {
                    CacheEntryState::Value { weak: Some(resource) }
                } else {
                    CacheEntryState::Loaded { strong: resource }
                };
                let ghost state = inner@;
                let mut group = self.take_group(&work.key.id);
                let _ = group.insert(CacheEntryTyped::from_parts(work.key, is_virtual, inner));
                self.put_group(work.key.id, group);
                assert(self@.groups =~= merged.put(work.key, pre.entry(work.key).with(state)).groups);
                data.dependencies.apply(graph);
                sources.watch_n(&work.key.id, &work.source_idx);
                UpdateAction::Done
            },
            None => match target {
                Some(resource) => {
                    self.init_group(&work.key.id);
                    data.dependencies.apply(graph);
                    sources.watch_n(&work.key.id, &work.source_idx);
                    UpdateAction::Apply(resource)
                },
                None => {
                    self.output_requested(work, resource);
                    UpdateAction::Done
                },
            },
        }
    }

    fn fail_update(&mut self, work: &UpdateWork)
        requires
            old(self).wf(),
        ensures
            final(self).wf(),
            final(self)@ == old(self)@.update_failed(*work),
    {
        let ghost pre = self@;
        let previous: Option<(bool, Option<u64>)> = match self.groups.get(&work.key.id) {
            Some(group) => match group.get(&work.key) {
                Some(entry) => match &entry.inner {
                    CacheEntryState::Updating { weak, .. } => Some((entry.is_virtual, *weak)),
                    _ => None,
                },
                None => None,
            },
            None => None,
        };
        match previous {
            Some((is_virtual, weak)) => {
                let mut group = self.take_group(&work.key.id);
                let _ = group.insert(
                    CacheEntryTyped::from_parts(work.key, is_virtual, CacheEntryState::Value { weak }),
                );
                self.put_group(work.key.id, group);
                assert(self@.groups =~= pre.update_failed(*work).groups);
            },
            None => {},
        }
    }

    /// Ends an update after the resource got its new contents. The task that the entry had, if it
    /// was still being updated, is to be left alone from now on; it is returned.
    pub fn finish_update(&mut self, work: &UpdateWork, resource: u64) -> (r: Option<u64>)
        requires
            old(self).wf(),
        ensures
            final(self).wf(),
            final(self)@ == old(self)@.update_finished(*work, resource),
            r == (if old(self)@.has_entry(work.key) {
                match old(self)@.entry(work.key).state {
                    StateView::Updating { task, .. } => Some(task),
                    _ => None,
                }
            } else {
                None
            }),
    {
        let ghost pre = self@;
        let inner = if self.nobody_waits(work.wakers) {
            CacheEntryState::Value { weak: Some(resource) }
        } else {
            CacheEntryState::Loaded { strong: resource }
        };
        let ghost state = inner@;
        let mut is_virtual = work.is_virtual;
        let mut task: Option<u64> = None;
        match self.groups.get(&work.key.id) {
            Some(group) => match group.get(&work.key) {
                Some(entry) => {
                    is_virtual = entry.is_virtual;
                    match &entry.inner {
                        CacheEntryState::Updating { task: t, .. } => {
                            task = Some(*t);
                        },
                        _ => {},
                    }
                },
                None => {},
            },
            None => {},
        }
        let mut group = self.take_group(&work.key.id);
        let _ = group.insert(CacheEntryTyped::from_parts(work.key, is_virtual, inner));
        self.put_group(work.key.id, group);
        assert(self@.groups =~= pre.update_finished(*work, resource).groups);
        task
    }

    /// Starts the updates of an identifier's entries that follow from an update at a source.
    pub fn start_update(
        &mut self,
        id: &ResourceId,
        update: ResourceUpdate,
        source_idx: &SourceIndex,
        found: Option<SealedResourceDataSource>,
        next: &mut u64,
        live: &IdSet<u64>,
    ) -> (r: CacheGroupUpdateResult)
        requires
            old(self).wf(),
        ensures
            final(self).wf(),
            final(self)@ == old(self)@.with_group(
                *id,
                old(self)@.group(*id).start_update(
                    update@,
                    *source_idx,
                    crate::resource::manager::group::sealed_option(found),
                    *old(next),
                    live@,
                ),
            ),
            r@ == old(self)@.group(*id).update_outcome(
                update@,
                *source_idx,
                crate::resource::manager::group::sealed_option(found),
                *old(next),
                live@,
            ),
            *final(next) == (match r@ {
                GroupOutcome::Updated(started) => nth_task(*old(next), started.len()),
                _ => *old(next),
            }),
    {
        let ghost pre = self@;
        let mut group = self.take_group(id);
        let result = group.start_update(update, source_idx, found, next, live);
        let ghost g = group@;
        self.put_group(*id, group);
        assert(self@.groups =~= pre.with_group(*id, g).groups);
        result
    }

    /// Starts the updates that follow from the update of something that `key` depends on; nothing
    /// follows where the key's identifier has no group.
    pub fn start_dependent_update(&mut self, key: &ResKey, next: &mut u64, live: &IdSet<u64>) -> (r: Vec<StartedUpdate>)
        requires
            old(self).wf(),
        ensures
            final(self).wf(),
            final(self)@ == old(self)@.dependent_update(*key, *old(next), live@),
            r@ == old(self)@.dependent_started(*key, *old(next), live@),
            *final(next) == nth_task(*old(next), r@.len()),
    {
        let ghost pre = self@;
        if !self.groups.contains_key(&key.id) {
            return Vec::new();
        }
        let mut group = self.take_group(&key.id);
        let result = group.start_dependent_update(key, next, live);
        let ghost g = group@;
        self.put_group(key.id, group);
        assert(self@.groups =~= pre.with_group(key.id, g).groups);
        assert(pre.with_group(key.id, pre.group(key.id)).groups =~= pre.groups);
        match result {
            CacheGroupUpdateResult::Updated(updates) => updates,
            _ => Vec::new(),
        }
    }
}

impl CacheView {
    /// The cache after something that `key` depends on was updated.
    pub open spec fn dependent_update(self, key: ResKey, next: u64, live: Seq<u64>) -> CacheView {
        if self.groups.contains_key(key.id) && self.groups[key.id].has_loader(key.loader_type) {
            self.with_group(key.id, self.groups[key.id].start_dependent_update(key, next, live))
        } else {
            self
        }
    }

    /// The updates that are started then.
    pub open spec fn dependent_started(self, key: ResKey, next: u64, live: Seq<u64>) -> Seq<StartedUpdate> {
        if self.groups.contains_key(key.id) && self.groups[key.id].has_loader(key.loader_type) {
            self.groups[key.id].dependent_started(key, next, live)
        } else {
            Seq::empty()
        }
    }
}

/// Lets the sources be watched for a resource that is made from a default: any of them may come to
/// have it. Only a first load does that.
pub fn watch_for_default<S: ResourceSource>(sources: &mut Sources<S>, id: &ResourceId, operation: ResourceLoadOperation)
    requires
        old(sources).wf(),
    ensures
        final(sources).wf(),
        final(sources).list() == old(sources).list(),
        final(sources).watcher_states() == (if operation == ResourceLoadOperation::Load {
            crate::resource::manager::source::watch_n(
                old(sources).watcher_states(),
                *id,
                SourceIndex::greatest(),
            )
        } else {
            old(sources).watcher_states()
        }),
{
    if operation == ResourceLoadOperation::Load {
        let limit = SourceIndex::max();
        sources.watch_n(id, &limit);
    }
}

/// What a loader may do with other resources while it loads one.
pub struct ResourceLoadContext {
    key: ResKey,
    priority: TaskPriority,
    dependencies: DependencyGraphLayer,
    resource_cache: IdMap<ResKey, u64>,
}

impl ResourceLoadContext {
    /// The tables are in order.
    pub closed spec fn wf(&self) -> bool {
        self.dependencies.wf() && self.resource_cache.wf() && self.dependencies.subject() == self.key
    }

    /// The key that is loaded.
    pub closed spec fn subject(&self) -> ResKey {
        self.key
    }

    /// The keys whose loads led to this one.
    pub closed spec fn ancestry(&self) -> Seq<ResKey> {
        self.dependencies.ancestry()
    }

    /// What the resource was found to depend on.
    pub closed spec fn discovered(&self) -> Seq<ResKey> {
        self.dependencies.discovered()
    }

    /// The resources that are kept alive during the load.
    pub closed spec fn kept(&self) -> Map<ResKey, u64> {
        self.resource_cache@
    }

    /// How urgent the load is.
    pub closed spec fn urgency(&self) -> TaskPriority {
        self.priority
    }

    /// The context of a load that nothing was done in yet.
    pub fn new(key: ResKey, priority: TaskPriority, parents: Vec<ResKey>) -> (r: Self)
        ensures
            r.wf(),
            r.subject() == key,
            r.urgency() == priority,
            r.ancestry() == parents@,
            r.discovered() == Seq::<ResKey>::empty(),
            r.kept() == Map::<ResKey, u64>::empty(),
    {
        ResourceLoadContext {
            key,
            priority,
            dependencies: DependencyGraphLayer::new(key, parents),
            resource_cache: IdMap::new(),
        }
    }

    /// The key that is loaded.
    pub fn key(&self) -> (r: ResKey)
        ensures
            r == self.subject(),
    {
        self.key
    }

    /// How urgent the load is.
    pub fn priority(&self) -> (r: TaskPriority)
        ensures
            r == self.urgency(),
    {
        self.priority
    }

    /// Notes a dependency.
    pub fn add_dependency(&mut self, key: ResKey)
        requires
            old(self).wf(),
        ensures
            final(self).wf(),
            final(self).subject() == old(self).subject(),
            final(self).urgency() == old(self).urgency(),
            final(self).ancestry() == old(self).ancestry(),
            final(self).kept() == old(self).kept(),
            final(self).discovered() == crate::util::table::seq_with(old(self).discovered(), key),
    {
        self.dependencies.insert(key);
    }

    /// Keeps a resource alive during the load.
    pub fn cache_resource(&mut self, key: ResKey, resource: u64)
        requires
            old(self).wf(),
        ensures
            final(self).wf(),
            final(self).subject() == old(self).subject(),
            final(self).urgency() == old(self).urgency(),
            final(self).ancestry() == old(self).ancestry(),
            final(self).discovered() == old(self).discovered(),
            final(self).kept() == old(self).kept().insert(key, resource),
    {
        let _ = self.resource_cache.insert(key, resource);
    }

    /// What a nested load of `key` needs to know: the keys whose loads led to it. Where `key` is one
    /// of them, the load would wait for itself.
    pub fn get_with_loader(&self, key: &ResKey) -> (r: Result<Vec<ResKey>, ResourceLoadError>)
        requires
            self.wf(),
        ensures
            ({
                let lineage = self.lineage();
                if lineage.contains(*key) {
                    r.is_err() && r->Err_0@ == (LoadErrorView::CyclicLoad { parents: lineage, key: *key })
                } else {
                    r.is_ok() && r->Ok_0@ == lineage
                }
            }),
    {
        let mut set: IdSet<ResKey> = IdSet::new();
        let parents = self.dependencies.parents();
        let mut i: usize = 0;
        assert(parents@.take(0) =~= Seq::<ResKey>::empty());
        while i < parents.len()
            invariant
                i <= parents@.len(),
                set.wf(),
                set@ == crate::util::table::seq_with_all(Seq::<ResKey>::empty(), parents@.take(i as int)),
            decreases parents@.len() - i,
        {
            assert(parents@.take(i + 1).drop_last() =~= parents@.take(i as int));
            let _ = set.insert(parents[i]);
            i += 1;
        }
        assert(parents@.take(parents@.len() as int) =~= parents@);
        let _ = set.insert(self.key);
        let mut lineage: Vec<ResKey> = Vec::new();
        i = 0;
        while i < set.len()
            invariant
                i <= set@.len(),
                lineage@ == set@.take(i as int),
            decreases set@.len() - i,
        {
            lineage.push(*set.at(i));
            assert(set@.take(i + 1) =~= set@.take(i as int).push(set@[i as int]));
            i += 1;
        }
        assert(set@.take(set@.len() as int) =~= set@);
        if set.contains(key) {
            Err(ResourceLoadError::CyclicLoad { parents: lineage, key: *key })
        } else {
            Ok(lineage)
        }
    }

    /// The keys whose loads led here, and the one that is loaded, each once.
    pub open spec fn lineage(&self) -> Seq<ResKey> {
        crate::util::table::seq_with(
            crate::util::table::seq_with_all(Seq::<ResKey>::empty(), self.ancestry()),
            self.subject(),
        )
    }

    /// Takes note of a resource that was got while loading: the loaded one depends on it.
    pub fn note_result(&mut self, key: ResKey, result: &Result<u64, ResourceLoadError>)
        requires
            old(self).wf(),
        ensures
            final(self).wf(),
            final(self).subject() == old(self).subject(),
            final(self).urgency() == old(self).urgency(),
            final(self).ancestry() == old(self).ancestry(),
            match *result {
                Ok(resource) => {
                    &&& final(self).discovered() == crate::util::table::seq_with(old(self).discovered(), key)
                    &&& final(self).kept() == old(self).kept().insert(key, resource)
                },
                Err(_) => final(self).discovered() == old(self).discovered() && final(self).kept() == old(
                    self,
                ).kept(),
            },
    {
        match result {
            Ok(resource) => {
                self.add_dependency(key);
                self.cache_resource(key, *resource);
            },
            Err(_) => {},
        }
    }

    /// What a load that ended gives.
    pub fn into_data(self, resource: u64) -> (r: ResourceTaskData)
        requires
            self.wf(),
        ensures
            r.resource == resource,
            r.dependencies.wf(),
            r.dependencies.subject() == self.subject(),
            r.dependencies.discovered() == self.discovered(),
    {
        ResourceTaskData { resource, dependencies: self.dependencies }
    }
}

/// A nested load never gets to be one of those that it was started from: what a load is allowed to
/// load is never among the keys that it descends from, nor the load itself.
pub proof fn lemma_no_cyclic_load(ancestry: Seq<ResKey>, subject: ResKey, key: ResKey)
    requires
        !crate::util::table::seq_with(
            crate::util::table::seq_with_all(Seq::<ResKey>::empty(), ancestry),
            subject,
        ).contains(key),
    ensures
        key != subject,
        !ancestry.contains(key),
{
    crate::util::table::lemma_seq_with_all(Seq::<ResKey>::empty(), ancestry);
    lemma_seq_with(crate::util::table::seq_with_all(Seq::<ResKey>::empty(), ancestry), subject);
}

/// A failed update leaves a resource that is alive available.
pub proof fn lemma_failed_update_keeps_value(cache: CacheView, work: UpdateWork, resource: u64, live: Seq<u64>)
    requires
        cache.has_entry(work.key),
        cache.entry(work.key).state is Updating,
        cache.entry(work.key).updated_resource() == Some(resource),
        live.contains(resource),
    ensures
        cache.update_failed(work).get_answer(work.key, false, None, live) == CacheGetView::Cached(Ok(resource)),
{
}

/// After an update has finished, the resource is what the cache answers.
pub proof fn lemma_finished_update_is_answered(cache: CacheView, work: UpdateWork, resource: u64, live: Seq<u64>)
    requires
        live.contains(resource),
    ensures
        cache.update_finished(work, resource).get_answer(work.key, false, None, live) == CacheGetView::Cached(
            Ok(resource),
        ),
{
}

/// Who waits where: somebody who joins a list comes last in it; a list that is merged into another
/// one hands over everybody, in order, and is left empty; all other lists stay, and no entry changes.
pub proof fn lemma_waiters_move(cache: CacheView, list: u64, waiter: u64, into: u64, from: u64, other: u64)
    ensures
        cache.join(list, waiter).waiters(list) == cache.waiters(list) + seq![waiter],
        other != list ==> cache.join(list, waiter).waiters(other) == cache.waiters(other),
        cache.join(list, waiter).groups == cache.groups,
        cache.merge(into, into) == cache,
        into != from ==> cache.merge(into, from).waiters(into) == cache.waiters(into) + cache.waiters(from),
        into != from ==> cache.merge(into, from).waiters(from).len() == 0,
        other != into && other != from ==> cache.merge(into, from).waiters(other) == cache.waiters(other),
        cache.merge(into, from).groups == cache.groups,
{
    assert(cache.waiters(list).push(waiter) =~= cache.waiters(list) + seq![waiter]);
}

/// An entry that is filed is there from then on, one that is dropped is not; entries of other keys,
/// what is known of the data, and those who wait stay.
pub proof fn lemma_entries_are_independent(cache: CacheView, key: ResKey, entry: EntryView, other: ResKey)
    ensures
        cache.put(key, entry).has_entry(key),
        cache.put(key, entry).entry(key) == entry,
        !cache.drop_key(key).has_entry(key),
        cache.put(key, entry).lists == cache.lists,
        cache.drop_key(key).lists == cache.lists,
        cache.put(key, entry).group(other.id).metadata == cache.group(other.id).metadata,
        cache.drop_key(key).group(other.id).metadata == cache.group(other.id).metadata,
        other != key ==> {
            &&& cache.put(key, entry).has_entry(other) == cache.has_entry(other)
            &&& cache.has_entry(other) ==> cache.put(key, entry).entry(other) == cache.entry(other)
            &&& cache.drop_key(key).has_entry(other) == cache.has_entry(other)
            &&& cache.has_entry(other) ==> cache.drop_key(key).entry(other) == cache.entry(other)
        },
        cache.init_group(key.id).has_entry(other) == cache.has_entry(other),
        cache.has_entry(other) ==> cache.init_group(key.id).entry(other) == cache.entry(other),
        cache.init_group(key.id).groups.contains_key(key.id),
        cache.init_group(key.id).lists == cache.lists,
{
}

/// What asking for a key gives. The resource, if it is kept, was handed out and lives, or has just been
/// loaded. The error, if the load has failed, unless failures are to be retried. The caller waits if
/// a load has given nothing yet, or an update has nothing to show. In all other cases the resource has
/// to be loaded.
pub proof fn lemma_asking_gives(
    cache: CacheView,
    key: ResKey,
    force_retry: bool,
    polled: Option<Result<u64, LoadErrorView>>,
    live: Seq<u64>,
    resource: u64,
    error: LoadErrorView,
)
    ensures
        ({
            let answer = cache.get_answer(key, force_retry, polled, live);
            let state = cache.entry(key).state;
            let lives = match state {
                StateView::Value { weak } => weak is Some && live.contains(weak.unwrap()),
                StateView::Updating { weak, .. } => weak is Some && live.contains(weak.unwrap()),
                _ => false,
            };
            let has_failed = {
                ||| state is Loading && polled == Some(Err::<u64, LoadErrorView>(error))
                ||| state == StateView::Error(error)
            };
            &&& !cache.has_entry(key) ==> answer is MustLoad
            &&& cache.has_entry(key) ==> {
                &&& answer == CacheGetView::Cached(Ok::<u64, LoadErrorView>(resource)) <==> {
                    ||| state is Loading && polled == Some(Ok::<u64, LoadErrorView>(resource))
                    ||| state == (StateView::Loaded { strong: resource })
                    ||| lives && state == (StateView::Value { weak: Some(resource) })
                    ||| lives && (state matches StateView::Updating { weak, .. } && weak == Some(resource))
                }
                &&& answer == CacheGetView::Cached(Err::<u64, LoadErrorView>(error)) <==> has_failed && !force_retry
                &&& has_failed && force_retry ==> answer is MustLoad
                &&& state is Value && !lives ==> answer is MustLoad
                &&& answer is Waiting <==> {
                    ||| state is Loading && polled is None
                    ||| state is Updating && !lives
                }
            }
        }),
{
}

/// What asking leaves: whoever asks for something that is being loaded or updated joins those who wait
/// for it; the entry is polled; every other entry and every other list stays.
pub proof fn lemma_asking_leaves(
    cache: CacheView,
    key: ResKey,
    waiter: Option<u64>,
    polled: Option<Result<u64, LoadErrorView>>,
    live: Seq<u64>,
    other: ResKey,
    list: u64,
)
    ensures
        ({
            let after = cache.get_after(key, waiter, polled, live);
            let own_list = match cache.entry(key).state {
                StateView::Loading { wakers, .. } => Some(wakers),
                StateView::Updating { wakers, .. } => Some(wakers),
                _ => None,
            };
            &&& !cache.has_entry(key) ==> after == cache
            &&& cache.has_entry(key) ==> {
                &&& after.has_entry(key)
                &&& after.entry(key) == cache.entry(key).polled(polled)
                &&& own_list == Some(list) && waiter is Some ==> after.waiters(list) == cache.waiters(list)
                    + seq![waiter.unwrap()]
                &&& own_list != Some(list) || waiter is None ==> after.waiters(list) == cache.waiters(list)
            }
            &&& other != key ==> after.has_entry(other) == cache.has_entry(other)
            &&& other != key && cache.has_entry(other) ==> after.entry(other) == cache.entry(other)
            &&& after.group(other.id).metadata == cache.group(other.id).metadata
            &&& cache.polls_load(key) <==> cache.has_entry(key) && cache.entry(key).state is Loading
        }),
{
    if cache.has_entry(key) {
        crate::resource::manager::load::lemma_ready_answers(cache.entry(key), polled, live);
        if waiter is Some {
            assert(cache.waiters(list).push(waiter.unwrap()) =~= cache.waiters(list) + seq![waiter.unwrap()]);
        }
    }
}

/// What starting a load leaves: the key is being loaded by the task, unless the task has ended at
/// once, and whoever asked waits for it alone. Every other entry and every other list stays.
pub proof fn lemma_started_load(
    cache: CacheView,
    key: ResKey,
    is_virtual: bool,
    task: u64,
    waiter: u64,
    first: Option<Result<u64, LoadErrorView>>,
    other: ResKey,
    list: u64,
)
    ensures
        ({
            let after = cache.start_load(key, is_virtual, task, waiter, first);
            &&& after.has_entry(key)
            &&& after.entry(key).is_virtual == is_virtual
            &&& first is None ==> after.entry(key).state == (StateView::Loading { task, wakers: task })
            &&& first matches Some(Ok(resource)) ==> after.entry(key).state == (StateView::Value {
                weak: Some(resource),
            })
            &&& first matches Some(Err(error)) ==> after.entry(key).state == StateView::Error(error)
            &&& after.waiters(task) == seq![waiter]
            &&& list != task ==> after.waiters(list) == cache.waiters(list)
            &&& other != key ==> after.has_entry(other) == cache.has_entry(other)
            &&& other != key && cache.has_entry(other) ==> after.entry(other) == cache.entry(other)
            &&& after.group(other.id).metadata == cache.group(other.id).metadata
        }),
{
}

/// What is known of the data of a resource changes if and only if it was loaded from a source that
/// comes before the present one; entries and waiters stay.
pub proof fn lemma_earlier_source_is_noted(
    cache: CacheView,
    id: ResourceId,
    hash: Seq<char>,
    source_idx: SourceIndex,
    key: ResKey,
)
    ensures
        ({
            let after = cache.update_metadata(id, hash, source_idx);
            let is_earlier = cache.groups.contains_key(id) && source_idx.before(cache.group(id).metadata.source_idx);
            &&& is_earlier ==> after.group(id).metadata == (MetadataView { hash: Some(hash), source_idx })
            &&& !is_earlier ==> after == cache
            &&& after.has_entry(key) == cache.has_entry(key)
            &&& cache.has_entry(key) ==> after.entry(key) == cache.entry(key)
            &&& after.lists == cache.lists
            &&& key.id != id ==> after.group(key.id) == cache.group(key.id)
        }),
{
}

/// After new contents could not be loaded, the resource is handed out as before, if the entry was
/// still being updated; everything else stays.
pub proof fn lemma_failed_update_leaves(cache: CacheView, work: UpdateWork, other: ResKey)
    ensures
        ({
            let after = cache.update_failed(work);
            &&& after.lists == cache.lists
            &&& cache.has_entry(work.key) ==> after.has_entry(work.key)
            &&& cache.has_entry(work.key) ==> match cache.entry(work.key).state {
                StateView::Updating { weak, .. } => {
                    &&& after.entry(work.key).state == (StateView::Value { weak })
                    &&& after.entry(work.key).is_virtual == cache.entry(work.key).is_virtual
                },
                _ => after == cache,
            }
            &&& !cache.has_entry(work.key) ==> after == cache
            &&& other != work.key ==> after.has_entry(other) == cache.has_entry(other)
            &&& other != work.key && cache.has_entry(other) ==> after.entry(other) == cache.entry(other)
        }),
{
}

/// New contents go to the resource that is there: the one that is kept, or the one that was handed
/// out and lives. There is none if the entry is missing, has failed or is being loaded.
pub proof fn lemma_contents_go_to_resource(cache: CacheView, work: UpdateWork, live: Seq<u64>, resource: u64)
    ensures
        cache.update_target(work, live) == Some(resource) <==> cache.has_entry(work.key) && {
            let state = cache.entry(work.key).state;
            ||| state == (StateView::Loaded { strong: resource })
            ||| state == (StateView::Value { weak: Some(resource) }) && live.contains(resource)
            ||| (state matches StateView::Updating { weak, .. } && weak == Some(resource)) && live.contains(resource)
        },
        cache.update_applies(work, live) <==> cache.update_target(work, live) is Some || cache.has_entry(work.key)
            && cache.entry(work.key).state is Loading,
{
}

/// What new contents leave, unless there is a resource that they go to. If the resource is being
/// loaded meanwhile, they are what is waited for: everybody who waits for either is in one list. If it
/// is not there, they become the resource if somebody waits for it, and are thrown away with the
/// entry otherwise. A resource is kept if and only if somebody waits for it. Other entries stay.
pub proof fn lemma_loaded_contents(cache: CacheView, work: UpdateWork, resource: u64, live: Seq<u64>, other: ResKey)
    ensures
        ({
            let after = cache.update_loaded(work, resource, live);
            let is_loading = cache.has_entry(work.key) && cache.entry(work.key).state is Loading;
            &&& is_loading ==> {
                let list = cache.entry(work.key).state->Loading_wakers;
                let waiting = cache.waiters(work.wakers).len() > 0 || cache.waiters(list).len() > 0;
                &&& after.has_entry(work.key)
                &&& after.entry(work.key).is_virtual == cache.entry(work.key).is_virtual
                &&& waiting ==> after.entry(work.key).state == (StateView::Loaded { strong: resource })
                &&& !waiting ==> after.entry(work.key).state == (StateView::Value { weak: Some(resource) })
                &&& list != work.wakers ==> after.waiters(work.wakers) == cache.waiters(work.wakers) + cache.waiters(
                    list,
                )
            }
            &&& !is_loading && cache.update_target(work, live) is Some ==> {
                &&& after.has_entry(work.key)
                &&& after.entry(work.key) == cache.entry(work.key)
                &&& after.lists == cache.lists
            }
            &&& !is_loading && cache.update_target(work, live) is None ==> {
                &&& after.lists == cache.lists
                &&& cache.waiters(work.wakers).len() > 0 ==> after.has_entry(work.key) && after.entry(work.key) == (
                EntryView { is_virtual: work.is_virtual, state: StateView::Loaded { strong: resource } })
                &&& cache.waiters(work.wakers).len() == 0 ==> !after.has_entry(work.key)
            }
            &&& other != work.key ==> after.has_entry(other) == cache.has_entry(other)
            &&& other != work.key && cache.has_entry(other) ==> after.entry(other) == cache.entry(other)
        }),
{
}

/// After a resource got its new contents, it is kept if somebody waits for it and handed out
/// otherwise; everything else stays.
pub proof fn lemma_finished_update_leaves(cache: CacheView, work: UpdateWork, resource: u64, other: ResKey)
    ensures
        ({
            let after = cache.update_finished(work, resource);
            &&& after.lists == cache.lists
            &&& after.has_entry(work.key)
            &&& cache.waiters(work.wakers).len() > 0 ==> after.entry(work.key).state == (StateView::Loaded {
                strong: resource,
            })
            &&& cache.waiters(work.wakers).len() == 0 ==> after.entry(work.key).state == (StateView::Value {
                weak: Some(resource),
            })
            &&& cache.has_entry(work.key) ==> after.entry(work.key).is_virtual == cache.entry(work.key).is_virtual
            &&& !cache.has_entry(work.key) ==> after.entry(work.key).is_virtual == work.is_virtual
            &&& other != work.key ==> after.has_entry(other) == cache.has_entry(other)
            &&& other != work.key && cache.has_entry(other) ==> after.entry(other) == cache.entry(other)
        }),
{
}

/// After something that a key depends on was updated, the updates of the key's group are started if
/// an entry was ever filed there with the key's loader; other groups, and those who wait, stay.
pub proof fn lemma_dependent_group_is_updated(cache: CacheView, key: ResKey, next: u64, live: Seq<u64>, id: ResourceId)
    ensures
        ({
            let after = cache.dependent_update(key, next, live);
            let started = cache.dependent_started(key, next, live);
            let is_concerned = cache.groups.contains_key(key.id) && cache.groups[key.id].loaders.contains(
                key.loader_type,
            );
            &&& is_concerned ==> {
                &&& after.group(key.id) == cache.group(key.id).start_dependent_update(key, next, live)
                &&& started == cache.group(key.id).dependent_started(key, next, live)
            }
            &&& !is_concerned ==> after == cache && started.len() == 0
            &&& id != key.id ==> after.group(id) == cache.group(id)
            &&& after.lists == cache.lists
        }),
{
}

/// A nested load is refused if and only if it is for the key that is being loaded, or for one of those
/// whose loads led to it.
pub proof fn lemma_lineage_is_exact(context: &ResourceLoadContext, key: ResKey)
    ensures
        context.lineage().contains(key) <==> key == context.subject() || context.ancestry().contains(key),
        context.lineage().no_duplicates(),
        context.ancestry().no_duplicates() && !context.ancestry().contains(context.subject()) ==> context.lineage()
            == context.ancestry() + seq![context.subject()],
{
    let none = Seq::<ResKey>::empty();
    crate::util::table::lemma_seq_with_all(none, context.ancestry());
    let all = crate::util::table::seq_with_all(none, context.ancestry());
    lemma_seq_with(all, context.subject());
    if context.ancestry().no_duplicates() {
        lemma_distinct_are_kept(context.ancestry());
        assert(context.ancestry().push(context.subject()) =~= context.ancestry() + seq![context.subject()]);
    }
}

proof fn lemma_distinct_are_kept(keys: Seq<ResKey>)
    requires
        keys.no_duplicates(),
    ensures
        crate::util::table::seq_with_all(Seq::<ResKey>::empty(), keys) == keys,
    decreases keys.len(),
{
    if keys.len() > 0 {
        let rest = keys.drop_last();
        lemma_distinct_are_kept(rest);
        assert(!rest.contains(keys.last())) by {
            if rest.contains(keys.last()) {
                let i = choose|i: int| 0 <= i < rest.len() && rest[i] == keys.last();
                assert(keys[i] == keys[keys.len() - 1]);
            }
        }
        assert(rest.push(keys.last()) =~= keys);
    } else {
        assert(keys =~= Seq::<ResKey>::empty());
    }
}

} // verus!
