//! Management of loaded resources.
use vstd::prelude::*;

use crate::resource::manager::cache::{Cache, CacheGet};
use crate::resource::manager::dependency::DependencyGraph;
use crate::resource::manager::load::{LoadPolled, LoadPriority};
use crate::resource::manager::source::Sources;
use crate::resource::manager::task::{route, ResourceManagerWorkerPriorityConfig, TaskPriority, TaskQueue};
use crate::resource::manager::update::{UpdateManager, UpdateManagerState};
use crate::resource::source::ResourceSource;
use crate::resource::watcher::{Outgoing, ResourceWatcher, ResourceWatcherSender, WatcherModel};
use crate::resource::ResKey;
use crate::util::table::IdSet;

pub mod cache;
pub mod dependency;
pub mod direct;
pub mod entry;
pub mod future;
pub mod group;
pub mod load;
pub mod source;
pub mod task;
pub mod update;

verus! {

/// A manager of resources, which tracks how they depend on each other.
pub struct ResourceManager<S> {
    pub sources: Sources<S>,
    pub cache: Cache,
    pub dependencies: DependencyGraph,
    pub update_manager: UpdateManager,
    pub priorities: ResourceManagerWorkerPriorityConfig,
}

impl<S: ResourceSource> ResourceManager<S> {
    /// Each part is in order.
    pub open spec fn wf(&self) -> bool {
        &&& self.sources.wf()
        &&& self.cache.wf()
        &&& self.dependencies.wf()
        &&& self.priorities.is_ordered()
    }

    /// The builder of a manager.
    pub fn builder() -> (r: ResourceManagerBuilder<S>)
        ensures
            r.wf(),
            r.sources() == Seq::<S>::empty(),
            r.watchers() == Seq::<WatcherModel>::empty(),
            r.config() == None::<ResourceManagerWorkerPriorityConfig>,
    {
        ResourceManagerBuilder::new()
    }

    /// How the resources depend on each other.
    pub fn dependencies(&self) -> (r: &DependencyGraph)
        ensures
            *r == self.dependencies,
    {
        &self.dependencies
    }

    /// Asks for a resource as an immediate load without preference.
    pub fn get_with_loader(
        &mut self,
        key: &ResKey,
        waiter: u64,
        polled: LoadPolled,
        live: &IdSet<u64>,
    ) -> (r: (CacheGet, TaskQueue))
        requires
            old(self).wf(),
            crate::resource::manager::load::polled_wf(polled),
        ensures
            final(self).wf(),
            final(self).sources == old(self).sources,
            final(self).update_manager == old(self).update_manager,
            final(self).priorities == old(self).priorities,
            final(self).cache@ == old(self).cache@.init_group(key.id).get_after(
                *key,
                Some(waiter),
                crate::resource::manager::load::polled_result(polled),
                live@,
            ),
            final(self).dependencies@ == (if old(self).cache@.polls_load(*key) {
                crate::resource::manager::load::graph_after_poll(
                    old(self).dependencies@,
                    old(self).cache@.entry(*key),
                    polled,
                )
            } else {
                old(self).dependencies@
            }),
            r.0@ == old(self).cache@.get_answer(
                *key,
                false,
                crate::resource::manager::load::polled_result(polled),
                live@,
            ),
            r.1 == TaskQueue::Immediate(0),
    {
        self.get_with_loader_priority(key, LoadPriority::immediate(), waiter, polled, live)
    }

    /// Asks for a resource. If it has to be loaded, the task for that goes to the given queue. A
    /// failure that the cache remembers is the answer.
    pub fn get_with_loader_priority(
        &mut self,
        key: &ResKey,
        load_priority: LoadPriority,
        waiter: u64,
        polled: LoadPolled,
        live: &IdSet<u64>,
    ) -> (r: (CacheGet, TaskQueue))
        requires
            old(self).wf(),
            crate::resource::manager::load::polled_wf(polled),
        ensures
            final(self).wf(),
            final(self).sources == old(self).sources,
            final(self).update_manager == old(self).update_manager,
            final(self).priorities == old(self).priorities,
            final(self).cache@ == old(self).cache@.init_group(key.id).get_after(
                *key,
                Some(waiter),
                crate::resource::manager::load::polled_result(polled),
                live@,
            ),
            final(self).dependencies@ == (if old(self).cache@.polls_load(*key) {
                crate::resource::manager::load::graph_after_poll(
                    old(self).dependencies@,
                    old(self).cache@.entry(*key),
                    polled,
                )
            } else {
                old(self).dependencies@
            }),
            r.0@ == old(self).cache@.get_answer(
                *key,
                false,
                crate::resource::manager::load::polled_result(polled),
                live@,
            ),
            r.1 == (match load_priority {
                LoadPriority::Immediate(p) => TaskQueue::Immediate(p),
                LoadPriority::Delayed(p) => TaskQueue::Delayed(p),
            }),
    {
        let answer = self.cache.get_or_load(key, false, waiter, polled, live, &mut self.dependencies);
        (answer, route(TaskPriority::from(load_priority)))
    }

    /// Stops updates and forgets everything that is cached; whether there is an end of updates to
    /// wait for.
    pub fn stop(&mut self) -> (r: bool)
        requires
            old(self).wf(),
        ensures
            final(self).wf(),
            final(self).update_manager.state == UpdateManagerState::Stopped,
            r == (old(self).update_manager.state == UpdateManagerState::Started),
            final(self).cache@.groups.dom() == Set::<crate::resource::id::ResourceId>::empty(),
            final(self).cache@.lists == old(self).cache@.lists,
            final(self).sources == old(self).sources,
            final(self).dependencies == old(self).dependencies,
            final(self).priorities == old(self).priorities,
    {
        let r = self.update_manager.stop();
        self.cache.clear();
        r
    }
}

/// Collects what a [`ResourceManager`] is made of.
pub struct ResourceManagerBuilder<S> {
    sources: Vec<S>,
    watchers: Vec<ResourceWatcher>,
    config: Option<ResourceManagerWorkerPriorityConfig>,
}

impl<S: ResourceSource> ResourceManagerBuilder<S> {
    /// The sources, those that take precedence first.
    pub closed spec fn sources(&self) -> Seq<S> {
        self.sources@
    }

    /// The states of their watchers.
    pub closed spec fn watchers(&self) -> Seq<WatcherModel> {
        Seq::new(self.watchers@.len(), |i: int| self.watchers@[i]@)
    }

    /// The priorities of the queues, once they were given.
    pub closed spec fn config(&self) -> Option<ResourceManagerWorkerPriorityConfig> {
        self.config
    }

    /// Each source has its watcher.
    pub closed spec fn wf(&self) -> bool {
        &&& self.sources@.len() == self.watchers@.len()
        &&& forall|i: int| 0 <= i < self.watchers@.len() ==> (#[trigger] self.watchers@[i]).wf()
    }

    /// Nothing was given yet.
    pub fn new() -> (r: Self)
        ensures
            r.wf(),
            r.sources() == Seq::<S>::empty(),
            r.watchers() == Seq::<WatcherModel>::empty(),
            r.config() == None::<ResourceManagerWorkerPriorityConfig>,
    {
        let r = ResourceManagerBuilder { sources: Vec::new(), watchers: Vec::new(), config: None };
        assert(r.watchers() =~= Seq::<WatcherModel>::empty());
        r
    }

    /// Adds a source, after those added before.
    pub fn source(self, source: S, watcher: ResourceWatcher) -> (r: Self)
        requires
            self.wf(),
            watcher.wf(),
        ensures
            r.wf(),
            r.sources() == self.sources().push(source),
            r.watchers() == self.watchers().push(watcher@),
            r.config() == self.config(),
    {
        let mut sources = self.sources;
        let mut watchers = self.watchers;
        sources.push(source);
        watchers.push(watcher);
        let r = ResourceManagerBuilder { sources, watchers, config: self.config };
        assert(r.watchers() =~= self.watchers().push(watcher@));
        r
    }

    /// Sets the priorities that the queues have among all work of a pool.
    pub fn worker_config(self, config: ResourceManagerWorkerPriorityConfig) -> (r: Self)
        requires
            self.wf(),
        ensures
            r.wf(),
            r.sources() == self.sources(),
            r.watchers() == self.watchers(),
            r.config() == Some(config),
    {
        ResourceManagerBuilder { sources: self.sources, watchers: self.watchers, config: Some(config) }
    }

    /// Whether a manager can be built: the priorities were given, and more urgent queues have
    /// priorities that are not lower.
    pub fn is_complete(&self) -> (r: bool)
        ensures
            r == (self.config().is_some() && self.config().unwrap().is_ordered()),
    {
        match &self.config {
            Some(config) => config.check(),
            None => false,
        }
    }

    /// The manager, with an empty cache. Its sources' watchers report to `sender` from now on, each
    /// from the number of its source, and updates are processed.
    pub fn build(self, sender: ResourceWatcherSender, out: &mut Vec<Outgoing>) -> (r: ResourceManager<S>)
        requires
            self.wf(),
            self.config().is_some(),
            self.config().unwrap().is_ordered(),
        ensures
            r.wf(),
            r.sources.list() == self.sources(),
            r.sources.watcher_states() == Seq::new(
                self.watchers().len(),
                |i: int|
                    self.watchers()[i].configure(
                        crate::resource::manager::source::outermost(i, sender),
                        0,
                    ),
            ),
            r.cache@.groups.dom() == Set::<crate::resource::id::ResourceId>::empty(),
            r.cache@.lists.dom() == Set::<u64>::empty(),
            r.dependencies@.edges == Set::<(ResKey, ResKey)>::empty(),
            r.update_manager.state == UpdateManagerState::Started,
            r.priorities == self.config().unwrap(),
            crate::resource::watcher::is_kept(old(out)@, final(out)@),
            crate::resource::watcher::messages(final(out)@) == crate::resource::watcher::messages(old(out)@)
                + crate::resource::manager::source::configure_all_msgs(
                self.watchers(),
                sender,
                self.watchers().len(),
            ),
    {
        let priorities = match self.config {
            Some(config) => config,
            None => ResourceManagerWorkerPriorityConfig { immediate: 0, delayed: 0, update: 0 },
        };
        let mut update_manager = UpdateManager::new();
        let mut sources = Sources::new(self.sources, self.watchers);
        sources.configure(sender, out);
        update_manager.start();
        ResourceManager {
            sources,
            cache: Cache::new(),
            dependencies: DependencyGraph::new(),
            update_manager,
            priorities,
        }
    }
}

} // verus!
