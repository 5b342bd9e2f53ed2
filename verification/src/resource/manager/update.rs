//! Processing of reported updates.
use vstd::prelude::*;

use crate::resource::id::ResourceId;
use crate::resource::manager::cache::{Cache, CacheView};
use crate::resource::manager::dependency::{
    is_path, lemma_depends_along_paths, lemma_path_is_followed, DependencyGraph, GraphView,
};
use crate::resource::manager::group::{
    is_alive, lemma_sweep_entry, nth_task, started_keys, CacheGroupUpdateResult, Concerns, GroupOutcome,
};
use crate::resource::manager::load::{EntryView, StartedUpdate};
use crate::resource::manager::source::Sources;
use crate::resource::source::{
    BulkView, ResourceSource, ResourceUpdate, SealedResourceDataSource, SealedView, SourceIndex, UpdateView,
};
use crate::resource::watcher::UpdateMsg;
use crate::resource::ResKey;
use crate::util::table::{lemma_seq_with_all, IdSet};

verus! {

/// Where the processing of a message stands.
pub struct BatchView {
    pub cache: CacheView,
    /// The keys that need no update because of their dependencies: they are updated already, or
    /// were found not to need one.
    pub queued: Set<ResKey>,
    /// The keys that depend on something that is updated.
    pub dependent: Set<ResKey>,
    /// The updates that were started.
    pub started: Seq<StartedUpdate>,
    /// The number of the next task.
    pub next: u64,
}

/// The keys that are filed under an identifier.
pub open spec fn keys_of(graph: GraphView, id: ResourceId) -> Set<ResKey> {
    Set::new(|k: ResKey| graph.is_node(k) && k.id == id)
}

/// Everything that depends, directly or through others, on a key that is filed under an identifier.
pub open spec fn dependents_of(graph: GraphView, id: ResourceId) -> Set<ResKey> {
    Set::new(
        |d: ResKey|
            exists|k: ResKey| #[trigger]
                keys_of(graph, id).contains(k) && crate::resource::manager::dependency::depends_on(
                    graph.edges,
                    d,
                    k,
                ),
    )
}

impl BatchView {
    /// Nothing is processed yet.
    pub open spec fn start(cache: CacheView, next: u64) -> BatchView {
        BatchView { cache, queued: Set::empty(), dependent: Set::empty(), started: Seq::empty(), next }
    }

    /// The state after the update of one identifier.
    pub open spec fn process(
        self,
        graph: GraphView,
        id: ResourceId,
        update: UpdateView,
        source_idx: SourceIndex,
        found: Option<SealedView>,
        live: Seq<u64>,
    ) -> BatchView {
        let group = self.cache.group(id);
        let cache = self.cache.with_group(id, group.start_update(update, source_idx, found, self.next, live));
        match group.update_outcome(update, source_idx, found, self.next, live) {
            GroupOutcome::Updated(started) => BatchView {
                cache,
                queued: self.queued.union(started_keys(started)),
                dependent: self.dependent.union(dependents_of(graph, id)),
                started: self.started + started,
                next: nth_task(self.next, started.len()),
            },
            _ => BatchView { cache, queued: self.queued.union(keys_of(graph, id)), ..self },
        }
    }

    /// The state after the updates of the first `n` identifiers of a message.
    pub open spec fn process_all<S: ResourceSource>(
        self,
        graph: GraphView,
        bulk: BulkView,
        source_idx: SourceIndex,
        sources: Seq<S>,
        live: Seq<u64>,
        n: nat,
    ) -> BatchView
        decreases n,
    {
        if n == 0 || n > bulk.order.len() {
            self
        } else {
            let id = bulk.order[n - 1];
            self.process_all(graph, bulk, source_idx, sources, live, (n - 1) as nat).process(
                graph,
                id,
                bulk.updates[id],
                source_idx,
                crate::resource::manager::source::find_hash(sources, id, 0),
                live,
            )
        }
    }

    /// The state after the update of one key because of its dependencies.
    pub open spec fn process_dependent(self, key: ResKey, live: Seq<u64>) -> BatchView {
        let started = self.cache.dependent_started(key, self.next, live);
        BatchView {
            cache: self.cache.dependent_update(key, self.next, live),
            started: self.started + started,
            next: nth_task(self.next, started.len()),
            ..self
        }
    }

    /// The state after the updates of several keys because of their dependencies.
    pub open spec fn process_dependents(self, keys: Seq<ResKey>, live: Seq<u64>) -> BatchView
        decreases keys.len(),
    {
        if keys.len() == 0 {
            self
        } else {
            self.process_dependents(keys.drop_last(), live).process_dependent(keys.last(), live)
        }
    }

    /// Whether the keys are, each once, those that are updated only because of their dependencies.
    pub open spec fn triggers(self, keys: Seq<ResKey>) -> bool {
        &&& keys.no_duplicates()
        &&& forall|k: ResKey| #[trigger]
            keys.contains(k) <==> self.dependent.contains(k) && !self.queued.contains(k)
    }
}

/// The processing of one message.
pub struct UpdateBatch {
    queued: IdSet<ResKey>,
    dependent: IdSet<ResKey>,
    started: Vec<StartedUpdate>,
    next: u64,
}

impl UpdateBatch {
    /// The lists are proper.
    pub closed spec fn wf(&self) -> bool {
        self.queued.wf() && self.dependent.wf()
    }

    /// The state of the processing, given the cache.
    pub closed spec fn state(&self, cache: CacheView) -> BatchView {
        BatchView {
            cache,
            queued: Set::new(|k: ResKey| self.queued@.contains(k)),
            dependent: Set::new(|k: ResKey| self.dependent@.contains(k)),
            started: self.started@,
            next: self.next,
        }
    }

    /// Nothing is processed yet; tasks are numbered from `next` on.
    pub fn new(next: u64) -> (r: Self)
        ensures
            r.wf(),
            forall|cache: CacheView| #[trigger] r.state(cache) == BatchView::start(cache, next),
    {
        let r = UpdateBatch { queued: IdSet::new(), dependent: IdSet::new(), started: Vec::new(), next };
        assert forall|cache: CacheView| #[trigger] r.state(cache) == BatchView::start(cache, next) by {
            assert(r.state(cache).queued =~= Set::empty());
            assert(r.state(cache).dependent =~= Set::empty());
            assert(r.state(cache).started =~= Seq::empty());
        }
        r
    }

    /// Processes the update of one identifier. `found` is the data that is there now, in case the
    /// former is gone.
    pub fn process_update(
        &mut self,
        cache: &mut Cache,
        graph: &DependencyGraph,
        id: &ResourceId,
        update: ResourceUpdate,
        source_idx: &SourceIndex,
        found: Option<SealedResourceDataSource>,
        live: &IdSet<u64>,
    )
        requires
            old(self).wf(),
            old(cache).wf(),
            graph.wf(),
        ensures
            final(self).wf(),
            final(cache).wf(),
            final(self).state(final(cache)@) == old(self).state(old(cache)@).process(
                graph@,
                *id,
                update@,
                *source_idx,
                crate::resource::manager::group::sealed_option(found),
                live@,
            ),
    {
        let ghost pre = self.state(cache@);
        let ghost want = pre.process(
            graph@,
            *id,
            update@,
            *source_idx,
            crate::resource::manager::group::sealed_option(found),
            live@,
        );
        let keys = graph.keys_for_id(id);
        let mut next: u64 = self.next;
        let result = cache.start_update(id, update, source_idx, found, &mut next, live);
        self.next = next;
        match result {
            CacheGroupUpdateResult::Updated(updates) => {
                let mut i: usize = 0;
                let ghost queued = self.queued@;
                while i < updates.len()
                    invariant
                        i <= updates@.len(),
                        self.queued.wf(),
                        self.dependent == old(self).dependent,
                        self.started == old(self).started,
                        self.next == next,
                        forall|k: ResKey| #[trigger]
                            self.queued@.contains(k) <==> queued.contains(k) || started_keys(
                                updates@.take(i as int),
                            ).contains(k),
                    decreases updates@.len() - i,
                {
                    let key: ResKey = updates[i].key;
                    let ghost before = self.queued@;
                    proof {
                        crate::util::table::lemma_seq_with(before, key);
                        lemma_started_keys_push(updates@.take(i as int), updates@[i as int]);
                        assert(updates@.take(i + 1) =~= updates@.take(i as int).push(updates@[i as int]));
                    }
                    let _ = self.queued.insert(key);
                    i += 1;
                }
                assert(updates@.take(updates@.len() as int) =~= updates@);
                let ghost dependent = self.dependent@;
                i = 0;
                while i < keys.len()
                    invariant
                        graph.wf(),
                        i <= keys@.len(),
                        self.queued.wf(),
                        self.dependent.wf(),
                        self.started == old(self).started,
                        self.next == next,
                        forall|k: ResKey| #[trigger]
                            self.queued@.contains(k) <==> queued.contains(k) || started_keys(updates@).contains(k),
                        forall|d: ResKey| #[trigger]
                            self.dependent@.contains(d) <==> dependent.contains(d) || exists|j: int|
                                0 <= j < i && crate::resource::manager::dependency::depends_on(
                                    graph@.edges,
                                    d,
                                    #[trigger] keys@[j],
                                ),
                    decreases keys@.len() - i,
                {
                    let key: ResKey = *keys.at(i);
                    let parents = graph.recursive_dependents(&key);
                    let ghost before = self.dependent@;
                    self.dependent.insert_all(&parents);
                    proof {
                        lemma_seq_with_all(before, parents@);
                        assert forall|d: ResKey| #[trigger] self.dependent@.contains(d) <==> dependent.contains(d)
                            || exists|j: int|
                            0 <= j < i + 1 && crate::resource::manager::dependency::depends_on(
                                graph@.edges,
                                d,
                                #[trigger] keys@[j],
                            ) by {
                            if parents@.contains(d) {
                                assert(keys@[i as int] == key);
                            }
                        }
                    }
                    i += 1;
                }
                let mut updates = updates;
                let ghost all = updates@;
                self.started.append(&mut updates);
                proof {
                    let got = self.state(cache@);
                    assert(got.queued =~= want.queued);
                    assert forall|d: ResKey| #[trigger] got.dependent.contains(d) <==> want.dependent.contains(d) by {
                        if want.dependent.contains(d) && !dependent.contains(d) {
                            let k = choose|k: ResKey| #[trigger] keys_of(graph@, *id).contains(k)
                                && crate::resource::manager::dependency::depends_on(graph@.edges, d, k);
                            assert(keys@.contains(k));
                            let j = choose|j: int| 0 <= j < keys@.len() && keys@[j] == k;
                            assert(crate::resource::manager::dependency::depends_on(graph@.edges, d, keys@[j]));
                        }
                        if got.dependent.contains(d) && !dependent.contains(d) {
                            let j = choose|j: int|
                                0 <= j < keys@.len() && crate::resource::manager::dependency::depends_on(
                                    graph@.edges,
                                    d,
                                    #[trigger] keys@[j],
                                );
                            assert(keys@.contains(keys@[j]));
                            assert(keys_of(graph@, *id).contains(keys@[j]));
                        }
                    }
                    assert(got.dependent =~= want.dependent);
                    assert(got.started =~= want.started);
                }
            },
            _ => {
                let ghost queued = self.queued@;
                self.queued.insert_all(&keys);
                proof {
                    lemma_seq_with_all(queued, keys@);
                    let got = self.state(cache@);
                    assert(got.queued =~= want.queued);
                }
            },
        }
    }

    /// The keys that are to be updated only because of their dependencies.
    pub fn triggered(&self) -> (r: Vec<ResKey>)
        requires
            self.wf(),
        ensures
            forall|cache: CacheView| #[trigger] self.state(cache).triggers(r@),
    {
        let mut keys: Vec<ResKey> = Vec::new();
        let mut i: usize = 0;
        while i < self.dependent.len()
            invariant
                self.wf(),
                i <= self.dependent@.len(),
                keys@.no_duplicates(),
                forall|k: ResKey| #[trigger]
                    keys@.contains(k) <==> self.dependent@.take(i as int).contains(k) && !self.queued@.contains(k),
            decreases self.dependent@.len() - i,
        {
            let key: ResKey = *self.dependent.at(i);
            let ghost before = keys@;
            let ghost seen = self.dependent@.take(i as int);
            proof {
                assert(self.dependent@.take(i + 1) =~= seen.push(key));
                assert forall|k: ResKey| #[trigger] self.dependent@.take(i + 1).contains(k) <==> seen.contains(k)
                    || k == key by {
                    lemma_push_key(seen, key, k);
                }
                assert(!seen.contains(key)) by {
                    if seen.contains(key) {
                        let j = choose|j: int| 0 <= j < seen.len() && seen[j] == key;
                        assert(self.dependent@[j] == self.dependent@[i as int]);
                    }
                }
            }
            if !self.queued.contains(&key) {
                keys.push(key);
                proof {
                    assert forall|k: ResKey| #[trigger] keys@.contains(k) <==> before.contains(k) || k == key by {
                        lemma_push_key(before, key, k);
                    }
                    assert(!before.contains(key));
                    crate::util::table::lemma_seq_with(before, key);
                    assert(keys@ == crate::util::table::seq_with(before, key));
                }
            }
            i += 1;
        }
        assert(self.dependent@.take(self.dependent@.len() as int) =~= self.dependent@);
        keys
    }

    /// Processes the update of one key because of its dependencies.
    pub fn process_dependent(&mut self, cache: &mut Cache, key: &ResKey, live: &IdSet<u64>)
        requires
            old(self).wf(),
            old(cache).wf(),
        ensures
            final(self).wf(),
            final(cache).wf(),
            final(self).state(final(cache)@) == old(self).state(old(cache)@).process_dependent(*key, live@),
    {
        let ghost want = self.state(cache@).process_dependent(*key, live@);
        let mut next: u64 = self.next;
        let mut updates = cache.start_dependent_update(key, &mut next, live);
        self.next = next;
        self.started.append(&mut updates);
        proof {
            let got = self.state(cache@);
            assert(got.queued =~= want.queued);
            assert(got.dependent =~= want.dependent);
            assert(got.started =~= want.started);
        }
    }

    /// The updates that were started, and the number of the next task.
    pub fn into_started(self) -> (r: (Vec<StartedUpdate>, u64))
        ensures
            forall|cache: CacheView|
                (#[trigger] self.state(cache)).started == r.0@ && self.state(cache).next == r.1,
    {
        (self.started, self.next)
    }
}

proof fn lemma_push_key(s: Seq<ResKey>, x: ResKey, y: ResKey)
    ensures
        s.push(x).contains(y) <==> s.contains(y) || y == x,
{
    let t = s.push(x);
    if s.contains(y) {
        let i = choose|i: int| 0 <= i < s.len() && s[i] == y;
        assert(t[i] == y);
    }
    if y == x {
        assert(t[s.len() as int] == y);
    }
    if t.contains(y) {
        let i = choose|i: int| 0 <= i < t.len() && t[i] == y;
        if i < s.len() {
            assert(s[i] == y);
        }
    }
}

proof fn lemma_started_keys_push(s: Seq<StartedUpdate>, u: StartedUpdate)
    ensures
        forall|k: ResKey| #[trigger]
            started_keys(s.push(u)).contains(k) <==> started_keys(s).contains(k) || k == u.key,
{
    let t = s.push(u);
    assert forall|k: ResKey| #[trigger] started_keys(t).contains(k) <==> started_keys(s).contains(k) || k == u.key by {
        if started_keys(s).contains(k) {
            let i = choose|i: int| 0 <= i < s.len() && (#[trigger] s[i]).key == k;
            assert(t[i].key == k);
        }
        if k == u.key {
            assert(t[s.len() as int].key == k);
        }
        if started_keys(t).contains(k) {
            let i = choose|i: int| 0 <= i < t.len() && (#[trigger] t[i]).key == k;
            if i < s.len() {
                assert(s[i].key == k);
            }
        }
    }
}

/// Processes a message: first the updates that it reports, in their order, then, in some order, what
/// depends on that and is not updated already.
pub fn process_message<S: ResourceSource>(
    msg: UpdateMsg,
    cache: &mut Cache,
    graph: &DependencyGraph,
    sources: &Sources<S>,
    next: u64,
    live: &IdSet<u64>,
) -> (r: (Vec<StartedUpdate>, u64))
    requires
        msg.bulk_update.wf(),
        old(cache).wf(),
        graph.wf(),
    ensures
        final(cache).wf(),
        ({
            let reported = BatchView::start(old(cache)@, next).process_all(
                graph@,
                msg.bulk_update@,
                msg.src_idx,
                sources.list(),
                live@,
                msg.bulk_update@.order.len(),
            );
            exists|keys: Seq<ResKey>| #[trigger]
                reported.triggers(keys) && reported.process_dependents(keys, live@) == (BatchView {
                    cache: final(cache)@,
                    started: r.0@,
                    next: r.1,
                    ..reported
                })
        }),
{
    let mut batch = UpdateBatch::new(next);
    let ghost first = BatchView::start(cache@, next);
    let n: usize = msg.bulk_update.updates.len();
    let mut i: usize = 0;
    while i < n
        invariant
            graph.wf(),
            cache.wf(),
            batch.wf(),
            msg.bulk_update.wf(),
            n == msg.bulk_update@.order.len(),
            i <= n,
            batch.state(cache@) == first.process_all(
                graph@,
                msg.bulk_update@,
                msg.src_idx,
                sources.list(),
                live@,
                i as nat,
            ),
        decreases n - i,
    {
        let id: ResourceId = *msg.bulk_update.updates.key_at(i);
        let update = msg.bulk_update.updates.value_at(i).clone();
        assert(msg.bulk_update@.updates[id] == update@);
        let found = sources.find_hash(&id);
        batch.process_update(cache, graph, &id, update, &msg.src_idx, found, live);
        i += 1;
    }
    let ghost reported = batch.state(cache@);
    let keys = batch.triggered();
    assert(reported.triggers(keys@));
    i = 0;
    assert(keys@.take(0) =~= Seq::<ResKey>::empty());
    while i < keys.len()
        invariant
            cache.wf(),
            batch.wf(),
            i <= keys@.len(),
            batch.state(cache@) == reported.process_dependents(keys@.take(i as int), live@),
        decreases keys@.len() - i,
    {
        assert(keys@.take(i + 1).drop_last() =~= keys@.take(i as int));
        batch.process_dependent(cache, &keys[i], live);
        i += 1;
    }
    assert(keys@.take(keys@.len() as int) =~= keys@);
    let ghost end = batch.state(cache@);
    proof {
        lemma_dependents_keep_lists(reported, keys@, live@);
    }
    let r = batch.into_started();
    assert(end.started == r.0@ && end.next == r.1);
    r
}

proof fn lemma_dependents_keep_lists(b: BatchView, keys: Seq<ResKey>, live: Seq<u64>)
    ensures
        b.process_dependents(keys, live).queued == b.queued,
        b.process_dependents(keys, live).dependent == b.dependent,
    decreases keys.len(),
{
    if keys.len() > 0 {
        lemma_dependents_keep_lists(b, keys.drop_last(), live);
    }
}

/// The stages of the thread that processes messages.
#[derive(Debug, Clone, Copy, PartialEq, Eq, Structural)]
pub enum UpdateManagerState {
    Init,
    Started,
    Stopped,
}

/// Starts and stops the processing of messages.
#[derive(Debug)]
pub struct UpdateManager {
    pub state: UpdateManagerState,
}

impl UpdateManager {
    /// Not started yet.
    pub fn new() -> (r: Self)
        ensures
            r.state == UpdateManagerState::Init,
    {
        UpdateManager { state: UpdateManagerState::Init }
    }

    /// Starts the processing. It can be started once only.
    pub fn start(&mut self)
        requires
            old(self).state == UpdateManagerState::Init,
        ensures
            final(self).state == UpdateManagerState::Started,
    {
        self.state = UpdateManagerState::Started;
    }

    /// Stops the processing; whether there is anything to wait for.
    pub fn stop(&mut self) -> (r: bool)
        ensures
            final(self).state == UpdateManagerState::Stopped,
            r == (old(self).state == UpdateManagerState::Started),
    {
        let was_started = self.state == UpdateManagerState::Started;
        self.state = UpdateManagerState::Stopped;
        was_started
    }
}

/// Whether each group of a cache visits exactly its entries, each once, and knows their loaders.
pub open spec fn is_proper(cache: CacheView) -> bool {
    forall|id: ResourceId| #[trigger]
        cache.groups.contains_key(id) ==> {
            &&& cache.groups[id].order.no_duplicates()
            &&& forall|k: ResKey| #[trigger]
                cache.groups[id].order.contains(k) <==> cache.groups[id].entries.contains_key(k)
            &&& forall|k: ResKey| #[trigger]
                cache.groups[id].entries.contains_key(k) ==> cache.groups[id].has_loader(k.loader_type)
        }
}

/// The groups of a cache that is in order are proper.
pub proof fn lemma_cache_is_proper(cache: &Cache)
    requires
        cache.wf(),
    ensures
        is_proper(cache@),
{
    assert forall|id: ResourceId| #[trigger] cache@.groups.contains_key(id) implies {
        &&& cache@.groups[id].order.no_duplicates()
        &&& forall|k: ResKey| #[trigger]
            cache@.groups[id].order.contains(k) <==> cache@.groups[id].entries.contains_key(k)
        &&& forall|k: ResKey| #[trigger]
            cache@.groups[id].entries.contains_key(k) ==> cache@.groups[id].has_loader(k.loader_type)
    } by {
        cache.lemma_group_order(id);
        assert(cache@.group(id) == cache@.groups[id]);
    }
}

proof fn lemma_sweep_proper(
    order: Seq<ResKey>,
    entries: Map<ResKey, EntryView>,
    concerns: Concerns,
    source_idx: SourceIndex,
    next: u64,
    live: Seq<u64>,
)
    requires
        order.no_duplicates(),
    ensures
        ({
            let s = crate::resource::manager::group::sweep(order, entries, concerns, source_idx, next, live);
            &&& s.order.no_duplicates()
            &&& forall|k: ResKey| #[trigger] s.order.contains(k) <==> s.entries.contains_key(k)
            &&& forall|k: ResKey| #[trigger] s.order.contains(k) ==> order.contains(k)
        }),
    decreases order.len(),
{
    let s = crate::resource::manager::group::sweep(order, entries, concerns, source_idx, next, live);
    if order.len() > 0 {
        let rest = order.drop_last();
        let key = order.last();
        lemma_sweep_proper(rest, entries, concerns, source_idx, next, live);
        let done = crate::resource::manager::group::sweep(rest, entries, concerns, source_idx, next, live);
        assert(order =~= rest.push(key));
        assert(!rest.contains(key)) by {
            if rest.contains(key) {
                let i = choose|i: int| 0 <= i < rest.len() && rest[i] == key;
                assert(order[i] == order[order.len() - 1]);
            }
        }
        assert(!done.order.contains(key));
        crate::util::table::lemma_seq_with(done.order, key);
        assert forall|k: ResKey| #[trigger] s.order.contains(k) <==> s.entries.contains_key(k) by {
            lemma_push_key(done.order, key, k);
            assert(done.order.contains(k) <==> done.entries.contains_key(k));
        }
        assert forall|k: ResKey| #[trigger] s.order.contains(k) implies order.contains(k) by {
            lemma_push_key(done.order, key, k);
            lemma_push_key(rest, key, k);
        }
    }
}

/// Updating dependents keeps what can be updated, and keeps what is being updated in that state.
proof fn lemma_dependent_step(b: BatchView, by: ResKey, live: Seq<u64>, key: ResKey)
    requires
        is_proper(b.cache),
    ensures
        is_proper(b.process_dependent(by, live).cache),
        b.cache.has_entry(key) && b.cache.entry(key).can_update(live) ==> {
            &&& b.process_dependent(by, live).cache.has_entry(key)
            &&& b.process_dependent(by, live).cache.entry(key).can_update(live)
            &&& b.cache.entry(key).state is Updating ==> b.process_dependent(by, live).cache.entry(
                key,
            ).state is Updating
            &&& by == key ==> b.process_dependent(by, live).cache.entry(key).state is Updating && started_keys(
                b.process_dependent(by, live).started,
            ).contains(key)
        },
{
    let post = b.process_dependent(by, live);
    if b.cache.groups.contains_key(by.id) {
        let group = b.cache.groups[by.id];
        let concerns = Concerns::Loader(by.loader_type);
        lemma_sweep_proper(group.order, group.entries, concerns, group.metadata.source_idx, b.next, live);
        let swept = group.start_dependent_update(by, b.next, live);
        assert forall|k: ResKey| #[trigger] swept.entries.contains_key(k) implies swept.has_loader(k.loader_type) by {
            assert(swept.order.contains(k));
            assert(group.order.contains(k));
            assert(group.entries.contains_key(k));
        }
        if b.cache.has_entry(key) && key.id == by.id {
            assert(group.order.contains(key));
            lemma_sweep_entry(
                group.order,
                group.entries,
                concerns,
                group.metadata.source_idx,
                b.next,
                live,
                key,
            );
        }
    }
    if by == key && b.cache.has_entry(key) && b.cache.entry(key).can_update(live) {
        assert(b.cache.groups[key.id].has_loader(key.loader_type));
        let more = b.cache.dependent_started(key, b.next, live);
        assert(started_keys(more).contains(key));
        let i = choose|i: int| 0 <= i < more.len() && (#[trigger] more[i]).key == key;
        assert(post.started[b.started.len() + i].key == key);
    }
}

/// Every key that is triggered by its dependencies, and has an entry that can be updated, gets an
/// update.
pub proof fn lemma_triggered_is_updated(b: BatchView, keys: Seq<ResKey>, live: Seq<u64>, key: ResKey)
    requires
        is_proper(b.cache),
        b.cache.has_entry(key),
        b.cache.entry(key).can_update(live),
    ensures
        is_proper(b.process_dependents(keys, live).cache),
        b.process_dependents(keys, live).cache.has_entry(key),
        b.process_dependents(keys, live).cache.entry(key).can_update(live),
        keys.contains(key) ==> b.process_dependents(keys, live).cache.entry(key).state is Updating
            && started_keys(b.process_dependents(keys, live).started).contains(key),
    decreases keys.len(),
{
    if keys.len() > 0 {
        let rest = keys.drop_last();
        let by = keys.last();
        lemma_triggered_is_updated(b, rest, live, key);
        let mid = b.process_dependents(rest, live);
        lemma_dependent_step(mid, by, live, key);
        if keys.contains(key) && by != key {
            let i = choose|i: int| 0 <= i < keys.len() && keys[i] == key;
            assert(rest[i] == key);
            let j = choose|j: int| 0 <= j < mid.started.len() && (#[trigger] mid.started[j]).key == key;
            assert(mid.process_dependent(by, live).started[j].key == key);
        }
    }
}

/// A key that was updated because of its own data is not updated once more because of its
/// dependencies.
pub proof fn lemma_queued_is_not_triggered(b: BatchView, keys: Seq<ResKey>, key: ResKey)
    requires
        b.triggers(keys),
        b.queued.contains(key),
    ensures
        !keys.contains(key),
{
}

/// What the update of an identifier amounts to when it is processed as number `i` of a message.
pub open spec fn outcome_at<S: ResourceSource>(
    first: BatchView,
    graph: GraphView,
    bulk: BulkView,
    source_idx: SourceIndex,
    sources: Seq<S>,
    live: Seq<u64>,
    i: int,
) -> GroupOutcome {
    let before = first.process_all(graph, bulk, source_idx, sources, live, i as nat);
    let id = bulk.order[i];
    before.cache.group(id).update_outcome(
        bulk.updates[id],
        source_idx,
        crate::resource::manager::source::find_hash(sources, id, 0),
        before.next,
        live,
    )
}

/// The update of another identifier leaves a group as it is, and one that starts updates keeps what
/// is alive.
proof fn lemma_process_keeps_alive(
    b: BatchView,
    graph: GraphView,
    id: ResourceId,
    update: UpdateView,
    source_idx: SourceIndex,
    found: Option<SealedView>,
    live: Seq<u64>,
    key: ResKey,
)
    requires
        is_proper(b.cache),
    ensures
        ({
            let after = b.process(graph, id, update, source_idx, found, live);
            let outcome = b.cache.group(id).update_outcome(update, source_idx, found, b.next, live);
            &&& is_proper(after.cache)
            &&& started_keys(b.started).subset_of(started_keys(after.started))
            &&& b.dependent.subset_of(after.dependent)
            &&& key.id != id && b.cache.has_entry(key) ==> after.cache.has_entry(key) && after.cache.entry(key)
                == b.cache.entry(key)
            &&& key.id == id && outcome is Updated && b.cache.has_entry(key) && is_alive(
                b.cache.entry(key).state,
                live,
            ) ==> after.cache.has_entry(key) && is_alive(after.cache.entry(key).state, live)
            &&& (key.id != id || outcome is Updated) && after.queued.contains(key) ==> b.queued.contains(key)
                || started_keys(after.started).contains(key)
        }),
{
    let after = b.process(graph, id, update, source_idx, found, live);
    let group = b.cache.group(id);
    let outcome = group.update_outcome(update, source_idx, found, b.next, live);
    assert(group.order.no_duplicates() && (forall|k: ResKey| #[trigger]
        group.order.contains(k) <==> group.entries.contains_key(k)) && (forall|k: ResKey| #[trigger]
        group.entries.contains_key(k) ==> group.has_loader(k.loader_type))) by {
        if b.cache.groups.contains_key(id) {
            assert(b.cache.groups[id] == group);
        }
    }
    let new = group.start_update(update, source_idx, found, b.next, live);
    let data_idx = match group.new_data(update, source_idx, found) {
        Some(data) => data.idx,
        None => source_idx,
    };
    lemma_sweep_proper(group.order, group.entries, Concerns::Data, data_idx, b.next, live);
    crate::resource::manager::group::lemma_sweep_is_exact(
        group.order,
        group.entries,
        Concerns::Data,
        data_idx,
        b.next,
        live,
        key,
    );
    assert forall|k: ResKey| #[trigger] new.entries.contains_key(k) implies new.has_loader(k.loader_type) by {
        if new.order.contains(k) {
            assert(group.order.contains(k));
        }
        assert(group.entries.contains_key(k));
    }
    assert forall|i: ResourceId| #[trigger] after.cache.groups.contains_key(i) implies {
        &&& after.cache.groups[i].order.no_duplicates()
        &&& forall|k: ResKey| #[trigger]
            after.cache.groups[i].order.contains(k) <==> after.cache.groups[i].entries.contains_key(k)
        &&& forall|k: ResKey| #[trigger]
            after.cache.groups[i].entries.contains_key(k) ==> after.cache.groups[i].has_loader(k.loader_type)
    } by {
        if i == id {
            assert(after.cache.groups[i] == new);
        } else {
            assert(b.cache.groups.contains_key(i));
            assert(after.cache.groups[i] == b.cache.groups[i]);
        }
    }
    assert forall|k: ResKey| started_keys(b.started).contains(k) implies #[trigger] started_keys(
        after.started,
    ).contains(k) by {
        let j = choose|j: int| 0 <= j < b.started.len() && (#[trigger] b.started[j]).key == k;
        assert(after.started[j].key == k);
    }
    if let GroupOutcome::Updated(started) = outcome {
        assert forall|k: ResKey| started_keys(started).contains(k) implies #[trigger] started_keys(
            after.started,
        ).contains(k) by {
            let j = choose|j: int| 0 <= j < started.len() && (#[trigger] started[j]).key == k;
            assert(after.started[b.started.len() + j].key == k);
        }
        if b.cache.has_entry(key) && key.id == id {
            assert(b.cache.groups[id] == group);
            assert(group.order.contains(key));
        }
    }
}

proof fn lemma_message_keeps_alive<S: ResourceSource>(
    first: BatchView,
    graph: GraphView,
    bulk: BulkView,
    source_idx: SourceIndex,
    sources: Seq<S>,
    live: Seq<u64>,
    n: nat,
    key: ResKey,
)
    requires
        n <= bulk.order.len(),
        is_proper(first.cache),
        first.queued.is_empty(),
        first.cache.has_entry(key),
        is_alive(first.cache.entry(key).state, live),
        forall|j: int|
            0 <= j < bulk.order.len() && #[trigger] bulk.order[j] == key.id ==> outcome_at(
                first,
                graph,
                bulk,
                source_idx,
                sources,
                live,
                j,
            ) is Updated,
    ensures
        ({
            let b = first.process_all(graph, bulk, source_idx, sources, live, n);
            &&& is_proper(b.cache)
            &&& b.cache.has_entry(key)
            &&& is_alive(b.cache.entry(key).state, live)
            &&& b.queued.contains(key) ==> started_keys(b.started).contains(key)
        }),
    decreases n,
{
    if n > 0 {
        let i = n - 1;
        lemma_message_keeps_alive(first, graph, bulk, source_idx, sources, live, i as nat, key);
        let before = first.process_all(graph, bulk, source_idx, sources, live, i as nat);
        let id = bulk.order[i];
        let found = crate::resource::manager::source::find_hash(sources, id, 0);
        lemma_process_keeps_alive(before, graph, id, bulk.updates[id], source_idx, found, live, key);
        if id == key.id {
            assert(outcome_at(first, graph, bulk, source_idx, sources, live, i) is Updated);
        }
    }
}

proof fn lemma_message_collects_dependents<S: ResourceSource>(
    first: BatchView,
    graph: GraphView,
    bulk: BulkView,
    source_idx: SourceIndex,
    sources: Seq<S>,
    live: Seq<u64>,
    n: nat,
    i: int,
    path: Seq<ResKey>,
)
    requires
        0 <= i < n <= bulk.order.len(),
        is_path(graph.edges, path),
        path.last().id == bulk.order[i],
        outcome_at(first, graph, bulk, source_idx, sources, live, i) is Updated,
    ensures
        first.process_all(graph, bulk, source_idx, sources, live, n).dependent.contains(path.first()),
    decreases n,
{
    let before = first.process_all(graph, bulk, source_idx, sources, live, (n - 1) as nat);
    let id = bulk.order[n - 1];
    if i == n - 1 {
        lemma_path_is_followed(graph.edges, path);
        let m = path.len() as int;
        assert(graph.edges.contains((path[m - 2], path[m - 1])));
        assert(graph.is_node(path.last()));
        assert(keys_of(graph, id).contains(path.last()));
        assert(dependents_of(graph, id).contains(path.first()));
    } else {
        lemma_message_collects_dependents(
            first,
            graph,
            bulk,
            source_idx,
            sources,
            live,
            (n - 1) as nat,
            i,
            path,
        );
    }
}

proof fn lemma_sweep_of_dependents_adds(b: BatchView, keys: Seq<ResKey>, live: Seq<u64>, key: ResKey)
    requires
        started_keys(b.started).contains(key),
    ensures
        started_keys(b.process_dependents(keys, live).started).contains(key),
    decreases keys.len(),
{
    if keys.len() > 0 {
        lemma_sweep_of_dependents_adds(b, keys.drop_last(), live, key);
        let mid = b.process_dependents(keys.drop_last(), live);
        let j = choose|j: int| 0 <= j < mid.started.len() && (#[trigger] mid.started[j]).key == key;
        assert(mid.process_dependent(keys.last(), live).started[j].key == key);
    }
}

/// If a message starts updates for an identifier, then everything that leads, along one or more
/// dependencies, to a key of that identifier is updated with it: each such key whose cached resource
/// is alive is among the keys of the updates that were started, unless the message itself reports
/// its identifier and that report was skipped.
pub proof fn lemma_dependents_follow<S: ResourceSource>(
    cache: CacheView,
    graph: GraphView,
    bulk: BulkView,
    source_idx: SourceIndex,
    sources: Seq<S>,
    next: u64,
    live: Seq<u64>,
    i: int,
    path: Seq<ResKey>,
    keys: Seq<ResKey>,
)
    requires
        is_proper(cache),
        0 <= i < bulk.order.len(),
        outcome_at(BatchView::start(cache, next), graph, bulk, source_idx, sources, live, i) is Updated,
        is_path(graph.edges, path),
        path.last().id == bulk.order[i],
        cache.has_entry(path.first()),
        is_alive(cache.entry(path.first()).state, live),
        forall|j: int|
            0 <= j < bulk.order.len() && #[trigger] bulk.order[j] == path.first().id ==> outcome_at(
                BatchView::start(cache, next),
                graph,
                bulk,
                source_idx,
                sources,
                live,
                j,
            ) is Updated,
        BatchView::start(cache, next).process_all(
            graph,
            bulk,
            source_idx,
            sources,
            live,
            bulk.order.len(),
        ).triggers(keys),
    ensures
        started_keys(
            BatchView::start(cache, next).process_all(
                graph,
                bulk,
                source_idx,
                sources,
                live,
                bulk.order.len(),
            ).process_dependents(keys, live).started,
        ).contains(path.first()),
{
    let first = BatchView::start(cache, next);
    let n = bulk.order.len();
    let reported = first.process_all(graph, bulk, source_idx, sources, live, n);
    let key = path.first();
    lemma_message_keeps_alive(first, graph, bulk, source_idx, sources, live, n, key);
    lemma_message_collects_dependents(first, graph, bulk, source_idx, sources, live, n, i, path);
    if reported.queued.contains(key) {
        lemma_sweep_of_dependents_adds(reported, keys, live, key);
    } else {
        assert(keys.contains(key));
        lemma_triggered_is_updated(reported, keys, live, key);
    }
}

/// Nothing else is updated because of its dependencies: whatever is, leads along one or more
/// dependencies to a key of an identifier that the message starts updates for, and was neither
/// updated for its own data nor skipped.
pub proof fn lemma_only_dependents_follow<S: ResourceSource>(
    cache: CacheView,
    graph: GraphView,
    bulk: BulkView,
    source_idx: SourceIndex,
    sources: Seq<S>,
    next: u64,
    live: Seq<u64>,
    n: nat,
    key: ResKey,
)
    requires
        n <= bulk.order.len(),
        BatchView::start(cache, next).process_all(graph, bulk, source_idx, sources, live, n).dependent.contains(key),
    ensures
        exists|i: int, path: Seq<ResKey>|
            #![trigger bulk.order[i], is_path(graph.edges, path)]
            {
                &&& 0 <= i < n
                &&& outcome_at(BatchView::start(cache, next), graph, bulk, source_idx, sources, live, i) is Updated
                &&& is_path(graph.edges, path)
                &&& path.first() == key
                &&& path.last().id == bulk.order[i]
            },
    decreases n,
{
    let first = BatchView::start(cache, next);
    if n > 0 {
        let before = first.process_all(graph, bulk, source_idx, sources, live, (n - 1) as nat);
        let id = bulk.order[n - 1];
        if before.dependent.contains(key) {
            lemma_only_dependents_follow(
                cache,
                graph,
                bulk,
                source_idx,
                sources,
                next,
                live,
                (n - 1) as nat,
                key,
            );
        } else {
            assert(outcome_at(first, graph, bulk, source_idx, sources, live, n - 1) is Updated);
            assert(dependents_of(graph, id).contains(key));
            let k = choose|k: ResKey| #[trigger]
                keys_of(graph, id).contains(k) && crate::resource::manager::dependency::depends_on(
                    graph.edges,
                    key,
                    k,
                );
            lemma_depends_along_paths(graph.edges, key, k);
            let path = choose|path: Seq<ResKey>| #[trigger]
                is_path(graph.edges, path) && path.first() == key && path.last() == k;
            assert(bulk.order[n - 1] == id);
            assert(is_path(graph.edges, path));
        }
    }
}

/// A key whose identifier the message reports in vain gets no update because of its dependencies
/// either.
pub proof fn lemma_skipped_is_not_triggered<S: ResourceSource>(
    cache: CacheView,
    graph: GraphView,
    bulk: BulkView,
    source_idx: SourceIndex,
    sources: Seq<S>,
    next: u64,
    live: Seq<u64>,
    n: nat,
    i: int,
    key: ResKey,
    keys: Seq<ResKey>,
)
    requires
        0 <= i < n <= bulk.order.len(),
        bulk.order[i] == key.id,
        !(outcome_at(BatchView::start(cache, next), graph, bulk, source_idx, sources, live, i) is Updated),
        BatchView::start(cache, next).process_all(graph, bulk, source_idx, sources, live, n).triggers(keys),
    ensures
        !keys.contains(key),
{
    let first = BatchView::start(cache, next);
    if keys.contains(key) {
        lemma_only_dependents_follow(cache, graph, bulk, source_idx, sources, next, live, n, key);
        let (j, path) = choose|j: int, path: Seq<ResKey>|
            #![trigger bulk.order[j], is_path(graph.edges, path)]
            {
                &&& 0 <= j < n
                &&& outcome_at(first, graph, bulk, source_idx, sources, live, j) is Updated
                &&& is_path(graph.edges, path)
                &&& path.first() == key
                &&& path.last().id == bulk.order[j]
            };
        assert(graph.edges.contains((path[0], path[1])));
        assert(graph.is_node(key));
        lemma_skipped_is_queued(first, graph, bulk, source_idx, sources, live, n, i, key);
    }
}

proof fn lemma_skipped_is_queued<S: ResourceSource>(
    first: BatchView,
    graph: GraphView,
    bulk: BulkView,
    source_idx: SourceIndex,
    sources: Seq<S>,
    live: Seq<u64>,
    n: nat,
    i: int,
    key: ResKey,
)
    requires
        0 <= i < n <= bulk.order.len(),
        bulk.order[i] == key.id,
        graph.is_node(key),
        !(outcome_at(first, graph, bulk, source_idx, sources, live, i) is Updated),
    ensures
        first.process_all(graph, bulk, source_idx, sources, live, n).queued.contains(key),
    decreases n,
{
    if i == n - 1 {
        assert(keys_of(graph, key.id).contains(key));
    } else {
        lemma_skipped_is_queued(first, graph, bulk, source_idx, sources, live, (n - 1) as nat, i, key);
    }
}

/// Every report of a message reaches the group of its own identifier, in the state in which the
/// message found it, and nothing else; groups that are not reported stay as they are.
pub proof fn lemma_reports_reach_their_groups<S: ResourceSource>(
    cache: CacheView,
    graph: GraphView,
    bulk: BulkView,
    source_idx: SourceIndex,
    sources: Seq<S>,
    next: u64,
    live: Seq<u64>,
    n: nat,
    id: ResourceId,
)
    requires
        n <= bulk.order.len(),
        bulk.order.no_duplicates(),
    ensures
        ({
            let first = BatchView::start(cache, next);
            let after = first.process_all(graph, bulk, source_idx, sources, live, n).cache.group(id);
            &&& !bulk.order.take(n as int).contains(id) ==> after == cache.group(id)
            &&& forall|i: int|
                0 <= i < n && #[trigger] bulk.order[i] == id ==> after == cache.group(id).start_update(
                    bulk.updates[id],
                    source_idx,
                    crate::resource::manager::source::find_hash(sources, id, 0),
                    first.process_all(graph, bulk, source_idx, sources, live, i as nat).next,
                    live,
                )
        }),
    decreases n,
{
    if n > 0 {
        let m = (n - 1) as nat;
        lemma_reports_reach_their_groups(cache, graph, bulk, source_idx, sources, next, live, m, id);
        let seen = bulk.order.take(m as int);
        if seen.contains(id) {
            let j = choose|j: int| 0 <= j < seen.len() && seen[j] == id;
            assert(bulk.order[j] == id);
            assert(bulk.order.take(n as int)[j] == id);
            assert(bulk.order[m as int] != id);
        }
        if bulk.order[m as int] == id {
            assert(bulk.order.take(n as int)[m as int] == id);
            assert(!seen.contains(id));
            assert forall|i: int| 0 <= i < n && #[trigger] bulk.order[i] == id implies i == m by {}
        }
    }
}

/// The updates that a message starts come one after the other: those of each report behind those of
/// the reports before it, and those of dependents last. Their tasks have successive numbers, beginning
/// with the one that the message was given, and the number behind them is what is left.
pub proof fn lemma_tasks_are_successive<S: ResourceSource>(
    cache: CacheView,
    graph: GraphView,
    bulk: BulkView,
    source_idx: SourceIndex,
    sources: Seq<S>,
    next: u64,
    live: Seq<u64>,
    n: nat,
    keys: Seq<ResKey>,
)
    requires
        is_proper(cache),
        n <= bulk.order.len(),
    ensures
        ({
            let first = BatchView::start(cache, next);
            let reported = first.process_all(graph, bulk, source_idx, sources, live, n);
            let all = reported.process_dependents(keys, live);
            &&& is_proper(reported.cache)
            &&& is_proper(all.cache)
            &&& forall|i: int|
                0 <= i < all.started.len() ==> (#[trigger] all.started[i]).task == (next + i) % 0x1_0000_0000_0000_0000
            &&& all.next == (next + all.started.len()) % 0x1_0000_0000_0000_0000
            &&& reported.started.is_prefix_of(all.started)
            &&& forall|i: int|
                0 <= i < n ==> (#[trigger] outcome_at(first, graph, bulk, source_idx, sources, live, i) matches GroupOutcome::Updated(
                    started,
                ) ==> {
                    let before = first.process_all(graph, bulk, source_idx, sources, live, i as nat).started;
                    (before + started).is_prefix_of(reported.started)
                })
        }),
    decreases n, keys.len(),
{
    let first = BatchView::start(cache, next);
    let reported = first.process_all(graph, bulk, source_idx, sources, live, n);
    let all = reported.process_dependents(keys, live);
    if keys.len() > 0 {
        let rest = keys.drop_last();
        lemma_tasks_are_successive(cache, graph, bulk, source_idx, sources, next, live, n, rest);
        let mid = reported.process_dependents(rest, live);
        let by = keys.last();
        lemma_dependent_step(mid, by, live, by);
        let started = mid.cache.dependent_started(by, mid.next, live);
        assert forall|i: int| 0 <= i < started.len() implies (#[trigger] started[i]).task == (mid.next + i)
            % 0x1_0000_0000_0000_0000 by {
            if mid.cache.groups.contains_key(by.id) {
                let group = mid.cache.groups[by.id];
                crate::resource::manager::group::lemma_sweep_is_exact(
                    group.order,
                    group.entries,
                    Concerns::Loader(by.loader_type),
                    group.metadata.source_idx,
                    mid.next,
                    live,
                    by,
                );
            }
        }
        lemma_numbers_go_on(next, mid.started, mid.next, started);
        assert(all.started == mid.started + started);
    } else if n > 0 {
        let m = (n - 1) as nat;
        lemma_tasks_are_successive(cache, graph, bulk, source_idx, sources, next, live, m, keys);
        let before = first.process_all(graph, bulk, source_idx, sources, live, m);
        assert(before.process_dependents(keys, live) == before);
        let id = bulk.order[m as int];
        let found = crate::resource::manager::source::find_hash(sources, id, 0);
        let key = ResKey { id, loader_type: 0, loader_key: 0 };
        lemma_process_keeps_alive(before, graph, id, bulk.updates[id], source_idx, found, live, key);
        let group = before.cache.group(id);
        let outcome = outcome_at(first, graph, bulk, source_idx, sources, live, m as int);
        if let GroupOutcome::Updated(started) = outcome {
            let data_idx = group.new_data(bulk.updates[id], source_idx, found).unwrap().idx;
            assert(group.order.no_duplicates()) by {
                if before.cache.groups.contains_key(id) {
                    assert(before.cache.groups[id] == group);
                }
            }
            crate::resource::manager::group::lemma_sweep_is_exact(
                group.order,
                group.entries,
                Concerns::Data,
                data_idx,
                before.next,
                live,
                key,
            );
            lemma_numbers_go_on(next, before.started, before.next, started);
            assert(reported.started == before.started + started);
        } else {
            assert(reported.started == before.started);
        }
    } else {
        assert(next as int % 0x1_0000_0000_0000_0000 == next);
    }
}

proof fn lemma_numbers_go_on(next: u64, a: Seq<StartedUpdate>, mid: u64, b: Seq<StartedUpdate>)
    requires
        mid == (next + a.len()) % 0x1_0000_0000_0000_0000,
        forall|i: int| 0 <= i < a.len() ==> (#[trigger] a[i]).task == (next + i) % 0x1_0000_0000_0000_0000,
        forall|i: int| 0 <= i < b.len() ==> (#[trigger] b[i]).task == (mid + i) % 0x1_0000_0000_0000_0000,
    ensures
        forall|i: int|
            0 <= i < (a + b).len() ==> (#[trigger] (a + b)[i]).task == (next + i) % 0x1_0000_0000_0000_0000,
        nth_task(mid, b.len()) == (next + (a + b).len()) % 0x1_0000_0000_0000_0000,
{
    assert forall|i: int| 0 <= i < (a + b).len() implies (#[trigger] (a + b)[i]).task == (next + i)
        % 0x1_0000_0000_0000_0000 by {
        if i >= a.len() {
            let j = i - a.len();
            assert((a + b)[i] == b[j]);
            assert((((next + a.len()) % 0x1_0000_0000_0000_0000) + j) % 0x1_0000_0000_0000_0000 == (next + i)
                % 0x1_0000_0000_0000_0000);
        } else {
            assert((a + b)[i] == a[i]);
        }
    }
}

} // verus!
