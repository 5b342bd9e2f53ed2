//! The cached entries of one identifier.
use vstd::prelude::*;

use crate::resource::manager::load::{
    started, CacheEntryTyped, EntryView, MetadataView, Replaced, SourceMetadata, StartedUpdate, StateView,
};
use crate::resource::source::{
    ResourceUpdate, SealedResourceDataSource, SealedView, SourceIndex, UpdateView,
};
use crate::resource::ResKey;
use crate::util::table::{lemma_seq_with, IdMap, IdSet};

verus! {

/// Which entries of a group an update concerns.
#[derive(Debug, Clone, Copy, PartialEq, Eq, Structural)]
pub enum Concerns {
    /// Those that are made from the data of sources.
    Data,
    /// Those with a loader of the given type, whatever they are made from.
    Loader(u64),
}

impl Concerns {
    /// Whether an entry is concerned.
    pub open spec fn covers(self, key: ResKey, entry: EntryView) -> bool {
        match self {
            Concerns::Data => !entry.is_virtual,
            Concerns::Loader(loader_type) => key.loader_type == loader_type,
        }
    }

    fn covers_entry(&self, entry: &CacheEntryTyped) -> (r: bool)
        ensures
            r == self.covers(entry.key, entry@),
    {
        match self {
            Concerns::Data => !entry.is_virtual,
            Concerns::Loader(loader_type) => entry.key.loader_type == *loader_type,
        }
    }
}

/// The mathematical value of a [`CacheGroup`].
pub struct GroupView {
    pub metadata: MetadataView,
    pub entries: Map<ResKey, EntryView>,
    /// The keys, in the order in which their entries are visited.
    pub order: Seq<ResKey>,
    /// The types of the loaders that entries have been filed with, those of entries that are gone
    /// among them.
    pub loaders: Seq<u64>,
}

/// What starting updates leaves of a group.
pub struct SweepView {
    pub entries: Map<ResKey, EntryView>,
    pub order: Seq<ResKey>,
    pub started: Seq<StartedUpdate>,
}

/// The number of the task that is started `n` tasks after the one with number `next`. Numbers start
/// over when they are exhausted.
pub open spec fn nth_task(next: u64, n: nat) -> u64 {
    ((next + n) % 0x1_0000_0000_0000_0000) as u64
}

/// Starts an update for each concerned entry that can be updated, and removes those that cannot.
/// Tasks are numbered from `next` on.
pub open spec fn sweep(
    order: Seq<ResKey>,
    entries: Map<ResKey, EntryView>,
    concerns: Concerns,
    source_idx: SourceIndex,
    next: u64,
    live: Seq<u64>,
) -> SweepView
    decreases order.len(),
{
    if order.len() == 0 {
        SweepView { entries: Map::empty(), order: Seq::empty(), started: Seq::empty() }
    } else {
        let done = sweep(order.drop_last(), entries, concerns, source_idx, next, live);
        let key = order.last();
        let entry = entries[key];
        if !concerns.covers(key, entry) {
            SweepView { entries: done.entries.insert(key, entry), order: done.order.push(key), ..done }
        } else if entry.can_update(live) {
            let task = nth_task(next, done.started.len());
            SweepView {
                entries: done.entries.insert(key, entry.start_update(task)),
                order: done.order.push(key),
                started: done.started.push(started(key, entry, source_idx, task)),
            }
        } else {
            done
        }
    }
}

/// The keys of updates that were started.
pub open spec fn started_keys(started: Seq<StartedUpdate>) -> Set<ResKey> {
    Set::new(|k: ResKey| exists|i: int| 0 <= i < started.len() && (#[trigger] started[i]).key == k)
}

/// What an update amounts to for a group.
pub enum GroupOutcome {
    /// It does not concern the group.
    Skipped,
    /// The group's source has another position now.
    Moved,
    /// Updates were started.
    Updated(Seq<StartedUpdate>),
}

impl GroupView {
    /// A group without entries, of which nothing is known.
    pub open spec fn empty() -> GroupView {
        GroupView {
            metadata: MetadataView { hash: None, source_idx: SourceIndex::greatest() },
            entries: Map::empty(),
            order: Seq::empty(),
            loaders: Seq::empty(),
        }
    }

    /// The group with an entry in place of any that the key had.
    pub open spec fn put(self, key: ResKey, entry: EntryView) -> GroupView {
        GroupView {
            entries: self.entries.insert(key, entry),
            order: crate::util::table::seq_with(self.order, key),
            loaders: crate::util::table::seq_with(self.loaders, key.loader_type),
            ..self
        }
    }

    /// The group without the entry of a key.
    pub open spec fn drop_key(self, key: ResKey) -> GroupView {
        GroupView {
            entries: self.entries.remove(key),
            order: crate::util::table::seq_without(self.order, key),
            ..self
        }
    }

    /// The group after updates were started.
    pub open spec fn swept(
        self,
        concerns: Concerns,
        source_idx: SourceIndex,
        next: u64,
        live: Seq<u64>,
    ) -> GroupView {
        let s = sweep(self.order, self.entries, concerns, source_idx, next, live);
        GroupView { entries: s.entries, order: s.order, ..self }
    }

    /// The updates that are started.
    pub open spec fn sweep_started(
        self,
        concerns: Concerns,
        source_idx: SourceIndex,
        next: u64,
        live: Seq<u64>,
    ) -> Seq<StartedUpdate> {
        sweep(self.order, self.entries, concerns, source_idx, next, live).started
    }

    /// The data that an update asks the group's entries to be made from, if it concerns them. What
    /// was removed is replaced by what is found elsewhere.
    pub open spec fn new_data(
        self,
        update: UpdateView,
        source_idx: SourceIndex,
        found: Option<SealedView>,
    ) -> Option<SealedView> {
        match update {
            UpdateView::Added(hash) | UpdateView::Modified(hash) => if self.metadata.valid_for_update(
                hash,
                source_idx,
            ) {
                Some(SealedView { hash, idx: source_idx })
            } else {
                None
            },
            UpdateView::Removed => found,
            UpdateView::MovedSourceIndex(_) => None,
        }
    }

    /// The group after an update.
    pub open spec fn start_update(
        self,
        update: UpdateView,
        source_idx: SourceIndex,
        found: Option<SealedView>,
        next: u64,
        live: Seq<u64>,
    ) -> GroupView {
        match update {
            UpdateView::MovedSourceIndex(previous) => if self.metadata.source_idx == previous {
                GroupView {
                    metadata: MetadataView { hash: self.metadata.hash, source_idx },
                    ..self
                }
            } else {
                self
            },
            _ => match self.new_data(update, source_idx, found) {
                Some(data) => (GroupView {
                    metadata: MetadataView { hash: Some(data.hash), source_idx: data.idx },
                    ..self
                }).swept(Concerns::Data, data.idx, next, live),
                None => self,
            },
        }
    }

    /// What an update amounts to.
    pub open spec fn update_outcome(
        self,
        update: UpdateView,
        source_idx: SourceIndex,
        found: Option<SealedView>,
        next: u64,
        live: Seq<u64>,
    ) -> GroupOutcome {
        match update {
            UpdateView::MovedSourceIndex(previous) => if self.metadata.source_idx == previous {
                GroupOutcome::Moved
            } else {
                GroupOutcome::Skipped
            },
            _ => match self.new_data(update, source_idx, found) {
                Some(data) => GroupOutcome::Updated(
                    self.sweep_started(Concerns::Data, data.idx, next, live),
                ),
                None => GroupOutcome::Skipped,
            },
        }
    }

    /// Whether an entry was ever filed with a loader of the given type.
    pub open spec fn has_loader(self, loader_type: u64) -> bool {
        self.loaders.contains(loader_type)
    }

    /// The group after something that its entries with one type of loader depend on was updated.
    pub open spec fn start_dependent_update(self, key: ResKey, next: u64, live: Seq<u64>) -> GroupView {
        self.swept(Concerns::Loader(key.loader_type), self.metadata.source_idx, next, live)
    }

    /// The updates that are started then.
    pub open spec fn dependent_started(self, key: ResKey, next: u64, live: Seq<u64>) -> Seq<StartedUpdate> {
        self.sweep_started(Concerns::Loader(key.loader_type), self.metadata.source_idx, next, live)
    }
}

/// What an update amounts to for a group.
#[derive(Debug)]
pub enum CacheGroupUpdateResult {
    /// It does not concern the group.
    Skipped,
    /// The group's source has another position now.
    Moved,
    /// Updates were started.
    Updated(Vec<StartedUpdate>),
}

impl View for CacheGroupUpdateResult {
    type V = GroupOutcome;

    open spec fn view(&self) -> GroupOutcome {
        match self {
            CacheGroupUpdateResult::Skipped => GroupOutcome::Skipped,
            CacheGroupUpdateResult::Moved => GroupOutcome::Moved,
            CacheGroupUpdateResult::Updated(started) => GroupOutcome::Updated(started@),
        }
    }
}

/// The cached entries of one identifier, and what is known of the data that they are made from.
pub struct CacheGroup {
    metadata: SourceMetadata,
    entries: IdMap<ResKey, CacheEntryTyped>,
    loaders: IdSet<u64>,
}

impl View for CacheGroup {
    type V = GroupView;

    closed spec fn view(&self) -> GroupView {
        GroupView {
            metadata: self.metadata@,
            entries: self.entries@.map_values(|e: CacheEntryTyped| e@),
            order: self.entries.keys(),
            loaders: self.loaders@,
        }
    }
}

impl CacheGroup {
    /// Every entry is filed under its own key, and the type of its loader is noted.
    pub closed spec fn wf(&self) -> bool {
        &&& self.entries.wf()
        &&& self.loaders.wf()
        &&& forall|k: ResKey| #[trigger]
            self.entries@.contains_key(k) ==> self.entries@[k].key == k && self.loaders@.contains(k.loader_type)
    }

    /// The visited keys are those of the entries, each once, and the types of their loaders are noted.
    pub proof fn lemma_order(&self)
        requires
            self.wf(),
        ensures
            self@.order.no_duplicates(),
            forall|k: ResKey| #[trigger] self@.order.contains(k) <==> self@.entries.contains_key(k),
            forall|k: ResKey| #[trigger] self@.entries.contains_key(k) ==> self@.has_loader(k.loader_type),
    {
        assert forall|k: ResKey| #[trigger] self@.order.contains(k) <==> self@.entries.contains_key(k) by {
            assert(self.entries@.contains_key(k) <==> self.entries.keys().contains(k));
        }
        assert forall|k: ResKey| #[trigger] self@.entries.contains_key(k) implies self@.has_loader(k.loader_type) by {
            assert(self.entries@.contains_key(k));
        }
    }

    /// A group without entries, of which nothing is known.
    pub fn new() -> (r: Self)
        ensures
            r.wf(),
            r@ == GroupView::empty(),
    {
        let r = CacheGroup { metadata: SourceMetadata::default(), entries: IdMap::new(), loaders: IdSet::new() };
        assert(r@.entries =~= GroupView::empty().entries);
        assert(r@.order =~= GroupView::empty().order);
        r
    }

    /// What is known of the data.
    pub fn metadata(&self) -> (r: &SourceMetadata)
        ensures
            r@ == self@.metadata,
    {
        &self.metadata
    }

    /// Notes what is known of the data.
    pub fn set_metadata(&mut self, hash: Option<String>, source_idx: SourceIndex)
        requires
            old(self).wf(),
        ensures
            final(self).wf(),
            final(self)@ == (GroupView {
                metadata: MetadataView {
                    hash: match hash {
                        Some(h) => Some(h@),
                        None => None,
                    },
                    source_idx,
                },
                ..old(self)@
            }),
    {
        self.metadata = SourceMetadata { hash, source_idx };
    }

    /// The number of entries.
    pub fn len(&self) -> (r: usize)
        ensures
            r == self@.order.len(),
    {
        self.entries.len()
    }

    /// The entry of a key.
    pub fn get(&self, key: &ResKey) -> (r: Option<&CacheEntryTyped>)
        requires
            self.wf(),
        ensures
            r.is_some() == self@.entries.contains_key(*key),
            r.is_some() ==> r.unwrap()@ == self@.entries[*key] && r.unwrap().key == *key,
    {
        self.entries.get(key)
    }

    /// Files an entry under its key; the entry that was there.
    pub fn insert(&mut self, entry: CacheEntryTyped) -> (r: Option<CacheEntryTyped>)
        requires
            old(self).wf(),
        ensures
            final(self).wf(),
            final(self)@ == old(self)@.put(entry.key, entry@),
            r.is_some() == old(self)@.entries.contains_key(entry.key),
            r.is_some() ==> r.unwrap()@ == old(self)@.entries[entry.key] && r.unwrap().key == entry.key,
    {
        let ghost pre = *self;
        let ghost e = entry;
        let key: ResKey = entry.key;
        let previous = self.entries.insert(key, entry);
        let _ = self.loaders.insert(key.loader_type);
        proof {
            lemma_seq_with(pre.loaders@, key.loader_type);
        }
        assert(self@.entries =~= pre@.entries.insert(e.key, e@));
        previous
    }

    /// Takes the entry of a key out.
    pub fn remove(&mut self, key: &ResKey) -> (r: Option<CacheEntryTyped>)
        requires
            old(self).wf(),
        ensures
            final(self).wf(),
            final(self)@ == old(self)@.drop_key(*key),
            r.is_some() == old(self)@.entries.contains_key(*key),
            r.is_some() ==> r.unwrap()@ == old(self)@.entries[*key] && r.unwrap().key == *key,
    {
        let ghost pre = *self;
        let removed = self.entries.remove(key);
        assert(self@.entries =~= pre@.entries.remove(*key));
        removed
    }

    /// Whether an entry was ever filed with a loader of the given type.
    pub fn has_loader(&self, loader_type: u64) -> (r: bool)
        requires
            self.wf(),
        ensures
            r == self@.has_loader(loader_type),
    {
        self.loaders.contains(&loader_type)
    }

    /// Starts an update for each concerned entry that can be updated, and removes those that cannot.
    fn sweep(
        &mut self,
        concerns: Concerns,
        source_idx: &SourceIndex,
        next: &mut u64,
        live: &IdSet<u64>,
    ) -> (r: Vec<StartedUpdate>)
        requires
            old(self).wf(),
        ensures
            final(self).wf(),
            final(self)@ == old(self)@.swept(concerns, *source_idx, *old(next), live@),
            r@ == old(self)@.sweep_started(concerns, *source_idx, *old(next), live@),
            *final(next) == nth_task(*old(next), r@.len()),
    {
        let ghost pre = *self;
        let ghost first = *next;
        let ghost order = pre@.order;
        let n: usize = self.entries.len();
        let mut keys: Vec<ResKey> = Vec::new();
        let mut i: usize = 0;
        while i < n
            invariant
                pre == *self,
                n == pre.entries.keys().len(),
                i <= n,
                keys@ == pre.entries.keys().take(i as int),
            decreases n - i,
        {
            keys.push(*self.entries.key_at(i));
            assert(pre.entries.keys().take(i + 1) =~= pre.entries.keys().take(i as int).push(
                pre.entries.keys()[i as int],
            ));
            i += 1;
        }
        assert(pre.entries.keys().take(n as int) =~= order);
        let mut kept: IdMap<ResKey, CacheEntryTyped> = IdMap::new();
        let mut updates: Vec<StartedUpdate> = Vec::new();
        i = 0;
        proof {
            pre.lemma_order();
            assert(order.take(0) =~= Seq::<ResKey>::empty());
        }
        assert(kept@.map_values(|e: CacheEntryTyped| e@) =~= Map::<ResKey, EntryView>::empty());
        while i < n
            invariant
                pre.wf(),
                n == order.len(),
                order == pre@.order,
                keys@ == order,
                order.no_duplicates(),
                i <= n,
                *next == nth_task(first, updates@.len()),
                self.metadata == pre.metadata,
                self.loaders == pre.loaders,
                self.entries.wf(),
                forall|k: ResKey| #[trigger] order.contains(k) <==> pre.entries@.contains_key(k),
                forall|j: int|
                    i <= j < n ==> self.entries@.contains_key(#[trigger] order[j]) && self.entries@[order[j]]
                        == pre.entries@[order[j]],
                kept.wf(),
                forall|k: ResKey| #[trigger]
                    kept@.contains_key(k) ==> kept@[k].key == k && pre.loaders@.contains(k.loader_type),
                kept.keys() == sweep(order.take(i as int), pre@.entries, concerns, *source_idx, first, live@).order,
                kept@.map_values(|e: CacheEntryTyped| e@) == sweep(
                    order.take(i as int),
                    pre@.entries,
                    concerns,
                    *source_idx,
                    first,
                    live@,
                ).entries,
                updates@ == sweep(
                    order.take(i as int),
                    pre@.entries,
                    concerns,
                    *source_idx,
                    first,
                    live@,
                ).started,
            decreases n - i,
        {
            let key: ResKey = keys[i];
            let ghost done = sweep(order.take(i as int), pre@.entries, concerns, *source_idx, first, live@);
            let ghost before = self.entries;
            let ghost kept_before = kept@.map_values(|e: CacheEntryTyped| e@);
            proof {
                assert(order[i as int] == key);
                assert(order.take(i + 1).drop_last() =~= order.take(i as int));
                assert(order.take(i + 1).last() == key);
                lemma_sweep_order(order.take(i as int), pre@.entries, concerns, *source_idx, first, live@);
                assert(!done.order.contains(key)) by {
                    if done.order.contains(key) {
                        let j = choose|j: int| 0 <= j < i && order.take(i as int)[j] == key;
                        assert(order[j] == order[i as int]);
                    }
                }
                assert(order.contains(key));
            }
            match self.entries.remove(&key) {
                Some(entry) => {
                    let mut entry = entry;
                    assert(entry == pre.entries@[key]);
                    assert(pre@.entries[key] == entry@);
                    assert(entry.key == key);
                    if !concerns.covers_entry(&entry) {
                        let ghost e = entry;
                        let _ = kept.insert(key, entry);
                        assert(kept@.map_values(|e: CacheEntryTyped| e@) =~= kept_before.insert(key, e@));
                    } else {
                        match entry.start_update(source_idx, *next, live) {
                            Some(update) => {
                                updates.push(update);
                                *next = next.wrapping_add(1);
                                let ghost e = entry;
                                let _ = kept.insert(key, entry);
                                assert(kept@.map_values(|e: CacheEntryTyped| e@) =~= kept_before.insert(key, e@));
                            },
                            None => {},
                        }
                    }
                },
                None => {
                    assert(before@.contains_key(order[i as int]));
                },
            }
            proof {
                assert forall|j: int| i + 1 <= j < n implies self.entries@.contains_key(#[trigger] order[j])
                    && self.entries@[order[j]] == pre.entries@[order[j]] by {
                    assert(order[j] != order[i as int]);
                }
            }
            i += 1;
        }
        assert(order.take(n as int) =~= order);
        self.entries = kept;
        updates
    }

    /// Starts the updates that follow from an update at a source. `found` is the data that is there
    /// now, in case the former is gone.
    pub fn start_update(
        &mut self,
        update: ResourceUpdate,
        source_idx: &SourceIndex,
        found: Option<SealedResourceDataSource>,
        next: &mut u64,
        live: &IdSet<u64>,
    ) -> (r: CacheGroupUpdateResult)
        requires
            old(self).wf(),
        ensures
            final(self).wf(),
            final(self)@ == old(self)@.start_update(
                update@,
                *source_idx,
                sealed_option(found),
                *old(next),
                live@,
            ),
            r@ == old(self)@.update_outcome(
                update@,
                *source_idx,
                sealed_option(found),
                *old(next),
                live@,
            ),
            *final(next) == (match r@ {
                GroupOutcome::Updated(started) => nth_task(*old(next), started.len()),
                _ => *old(next),
            }),
    {
        let (hash, idx) = match update {
            ResourceUpdate::Added(hash) | ResourceUpdate::Modified(hash) => {
                if !self.metadata.valid_for_update(&hash, source_idx) {
                    return CacheGroupUpdateResult::Skipped;
                }
                (hash, source_idx.clone())
            },
            ResourceUpdate::Removed => match found {
                Some(data) => (data.hash, data.idx),
                None => return CacheGroupUpdateResult::Skipped,
            },
            ResourceUpdate::MovedSourceIndex(previous) => {
                if self.metadata.source_idx == previous {
                    self.metadata.source_idx = source_idx.clone();
                    return CacheGroupUpdateResult::Moved;
                } else {
                    return CacheGroupUpdateResult::Skipped;
                }
            },
        };
        self.metadata.hash = Some(hash);
        self.metadata.source_idx = idx.clone();
        let updates = self.sweep(Concerns::Data, &idx, next, live);
        CacheGroupUpdateResult::Updated(updates)
    }

    /// Starts the updates that follow from the update of something that `key` depends on.
    pub fn start_dependent_update(&mut self, key: &ResKey, next: &mut u64, live: &IdSet<u64>) -> (r: CacheGroupUpdateResult)
        requires
            old(self).wf(),
        ensures
            final(self).wf(),
            final(self)@.metadata == old(self)@.metadata,
            old(self)@.has_loader(key.loader_type) ==> {
                &&& final(self)@ == old(self)@.start_dependent_update(*key, *old(next), live@)
                &&& r@ == GroupOutcome::Updated(old(self)@.dependent_started(*key, *old(next), live@))
                &&& *final(next) == nth_task(
                    *old(next),
                    old(self)@.dependent_started(*key, *old(next), live@).len(),
                )
            },
            !old(self)@.has_loader(key.loader_type) ==> {
                &&& final(self)@ == old(self)@
                &&& r@ == GroupOutcome::Skipped
                &&& *final(next) == *old(next)
            },
    {
        if self.has_loader(key.loader_type) {
            let idx = self.metadata.source_idx.clone();
            let updates = self.sweep(Concerns::Loader(key.loader_type), &idx, next, live);
            CacheGroupUpdateResult::Updated(updates)
        } else {
            CacheGroupUpdateResult::Skipped
        }
    }
}

/// Of two entries that are filed under one key the later one counts.
pub proof fn lemma_put_twice(group: GroupView, key: ResKey, a: EntryView, b: EntryView)
    ensures
        group.put(key, a).put(key, b) == group.put(key, b),
{
    let once = crate::util::table::seq_with(group.order, key);
    if !group.order.contains(key) {
        assert(once[group.order.len() as int] == key);
    }
    assert(once.contains(key));
    let known = crate::util::table::seq_with(group.loaders, key.loader_type);
    if !group.loaders.contains(key.loader_type) {
        assert(known[group.loaders.len() as int] == key.loader_type);
    }
    assert(known.contains(key.loader_type));
    assert(group.put(key, a).put(key, b).entries =~= group.put(key, b).entries);
}

/// The mathematical value of an optional description of data.
pub open spec fn sealed_option(found: Option<SealedResourceDataSource>) -> Option<SealedView> {
    match found {
        Some(data) => Some(data@),
        None => None,
    }
}

/// What is left of a group was there before.
proof fn lemma_sweep_order(
    order: Seq<ResKey>,
    entries: Map<ResKey, EntryView>,
    concerns: Concerns,
    source_idx: SourceIndex,
    next: u64,
    live: Seq<u64>,
)
    ensures
        forall|k: ResKey| #[trigger]
            sweep(order, entries, concerns, source_idx, next, live).order.contains(k) ==> order.contains(k),
    decreases order.len(),
{
    if order.len() > 0 {
        lemma_sweep_order(order.drop_last(), entries, concerns, source_idx, next, live);
        let done = sweep(order.drop_last(), entries, concerns, source_idx, next, live);
        let all = sweep(order, entries, concerns, source_idx, next, live);
        assert forall|k: ResKey| #[trigger] all.order.contains(k) implies order.contains(k) by {
            let j = choose|j: int| 0 <= j < all.order.len() && all.order[j] == k;
            if j < done.order.len() {
                assert(done.order[j] == k);
                assert(done.order.contains(k));
                let i = choose|i: int| 0 <= i < order.drop_last().len() && order.drop_last()[i] == k;
                assert(order[i] == k);
            } else {
                assert(order[order.len() - 1] == k);
            }
        }
    }
}

/// What updates leave of an entry: nothing, if it was concerned but could not be updated; an entry
/// that is being updated, if it could; the same entry, if it was not concerned.
pub proof fn lemma_sweep_entry(
    order: Seq<ResKey>,
    entries: Map<ResKey, EntryView>,
    concerns: Concerns,
    source_idx: SourceIndex,
    next: u64,
    live: Seq<u64>,
    key: ResKey,
)
    requires
        order.no_duplicates(),
        order.contains(key),
    ensures
        ({
            let s = sweep(order, entries, concerns, source_idx, next, live);
            let e = entries[key];
            &&& !concerns.covers(key, e) ==> s.entries.contains_key(key) && s.entries[key] == e
            &&& concerns.covers(key, e) && !e.can_update(live) ==> !s.entries.contains_key(key)
            &&& concerns.covers(key, e) && e.can_update(live) ==> s.entries.contains_key(key)
                && s.entries[key].state is Updating && s.entries[key].updated_resource() == e.updated_resource()
            &&& started_keys(s.started).contains(key) <==> concerns.covers(key, e) && e.can_update(live)
        }),
    decreases order.len(),
{
    let rest = order.drop_last();
    let done = sweep(rest, entries, concerns, source_idx, next, live);
    let s = sweep(order, entries, concerns, source_idx, next, live);
    lemma_sweep_known(rest, entries, concerns, source_idx, next, live);
    if key == order.last() {
        assert(!rest.contains(key)) by {
            if rest.contains(key) {
                let i = choose|i: int| 0 <= i < rest.len() && rest[i] == key;
                assert(order[i] == order[order.len() - 1]);
            }
        }
        assert(!started_keys(done.started).contains(key));
        if concerns.covers(key, entries[key]) && entries[key].can_update(live) {
            assert(s.started[done.started.len() as int].key == key);
        }
    } else {
        let i = choose|i: int| 0 <= i < order.len() && order[i] == key;
        assert(rest[i] == key);
        lemma_sweep_entry(rest, entries, concerns, source_idx, next, live, key);
        if started_keys(done.started).contains(key) {
            let j = choose|j: int| 0 <= j < done.started.len() && (#[trigger] done.started[j]).key == key;
            assert(s.started[j].key == key);
        }
        if started_keys(s.started).contains(key) {
            let j = choose|j: int| 0 <= j < s.started.len() && (#[trigger] s.started[j]).key == key;
            assert(done.started[j].key == key);
        }
    }
}

proof fn lemma_sweep_known(
    order: Seq<ResKey>,
    entries: Map<ResKey, EntryView>,
    concerns: Concerns,
    source_idx: SourceIndex,
    next: u64,
    live: Seq<u64>,
)
    ensures
        forall|k: ResKey| #[trigger]
            sweep(order, entries, concerns, source_idx, next, live).entries.contains_key(k) ==> order.contains(k),
        forall|k: ResKey| #[trigger]
            started_keys(sweep(order, entries, concerns, source_idx, next, live).started).contains(k)
                ==> order.contains(k),
    decreases order.len(),
{
    if order.len() > 0 {
        let rest = order.drop_last();
        lemma_sweep_known(rest, entries, concerns, source_idx, next, live);
        let done = sweep(rest, entries, concerns, source_idx, next, live);
        let s = sweep(order, entries, concerns, source_idx, next, live);
        assert(order[order.len() - 1] == order.last());
        assert forall|k: ResKey| #[trigger] s.entries.contains_key(k) implies order.contains(k) by {
            if k != order.last() {
                assert(done.entries.contains_key(k));
                let i = choose|i: int| 0 <= i < rest.len() && rest[i] == k;
                assert(order[i] == k);
            }
        }
        assert forall|k: ResKey| #[trigger] started_keys(s.started).contains(k) implies order.contains(k) by {
            let j = choose|j: int| 0 <= j < s.started.len() && (#[trigger] s.started[j]).key == k;
            if j < done.started.len() {
                assert(done.started[j].key == k);
                assert(started_keys(done.started).contains(k));
                let i = choose|i: int| 0 <= i < rest.len() && rest[i] == k;
                assert(order[i] == k);
            }
        }
    }
}

/// Data with the hash that the group has already starts nothing.
pub proof fn lemma_same_hash_is_skipped(
    group: GroupView,
    hash: Seq<char>,
    source_idx: SourceIndex,
    found: Option<SealedView>,
    next: u64,
    live: Seq<u64>,
)
    requires
        group.metadata.hash == Some(hash),
    ensures
        group.update_outcome(UpdateView::Added(hash), source_idx, found, next, live) is Skipped,
        group.update_outcome(UpdateView::Modified(hash), source_idx, found, next, live) is Skipped,
        group.start_update(UpdateView::Modified(hash), source_idx, found, next, live) == group,
{
}

/// Data from a source that comes after the present one starts nothing.
pub proof fn lemma_later_source_is_skipped(
    group: GroupView,
    hash: Seq<char>,
    source_idx: SourceIndex,
    found: Option<SealedView>,
    next: u64,
    live: Seq<u64>,
)
    requires
        group.metadata.source_idx.before(source_idx),
    ensures
        group.update_outcome(UpdateView::Added(hash), source_idx, found, next, live) is Skipped,
        group.update_outcome(UpdateView::Modified(hash), source_idx, found, next, live) is Skipped,
{
    crate::resource::source::lemma_index_order_irreflexive(source_idx);
    if source_idx != group.metadata.source_idx {
        crate::resource::source::lemma_index_order_total(source_idx, group.metadata.source_idx);
    }
}

/// Whether there is a resource to update: it is being loaded or updated, it is kept, or it was handed
/// out and still lives.
pub open spec fn is_alive(state: StateView, live: Seq<u64>) -> bool {
    ||| state is Loading
    ||| state is Loaded
    ||| state is Updating
    ||| exists|resource: u64| #[trigger]
        live.contains(resource) && state == (StateView::Value { weak: Some(resource) })
}

/// What starting updates does to one entry. An entry that is not concerned stays. A concerned one
/// whose resource is alive gets one update; the entry knows its task, keeps the resource that it has
/// and those who wait for it, and the task that it had is replaced. A concerned one whose resource is
/// not alive is dropped. Nothing else comes or goes, and tasks have successive numbers.
pub proof fn lemma_sweep_is_exact(
    order: Seq<ResKey>,
    entries: Map<ResKey, EntryView>,
    concerns: Concerns,
    source_idx: SourceIndex,
    next: u64,
    live: Seq<u64>,
    key: ResKey,
)
    requires
        order.no_duplicates(),
    ensures
        ({
            let s = sweep(order, entries, concerns, source_idx, next, live);
            let before = entries[key];
            let after = s.entries[key];
            let is_concerned = match concerns {
                Concerns::Data => !before.is_virtual,
                Concerns::Loader(loader_type) => key.loader_type == loader_type,
            };
            &&& !order.contains(key) ==> !s.entries.contains_key(key) && !s.order.contains(key)
            &&& order.contains(key) && !is_concerned ==> {
                &&& s.entries.contains_key(key)
                &&& s.order.contains(key)
                &&& after == before
            }
            &&& order.contains(key) && is_concerned && !is_alive(before.state, live) ==> {
                &&& !s.entries.contains_key(key)
                &&& !s.order.contains(key)
            }
            &&& order.contains(key) && is_concerned && is_alive(before.state, live) ==> {
                &&& s.entries.contains_key(key)
                &&& s.order.contains(key)
                &&& after.is_virtual == before.is_virtual
                &&& after.state matches StateView::Updating { weak, task, wakers } && {
                    &&& weak == (match before.state {
                        StateView::Loaded { strong } => Some(strong),
                        StateView::Value { weak } => weak,
                        StateView::Updating { weak, .. } => weak,
                        _ => None,
                    })
                    &&& before.state matches StateView::Loading { wakers: waiting, .. } ==> wakers == waiting
                    &&& before.state matches StateView::Updating { wakers: waiting, .. } ==> wakers == waiting
                    &&& before.state is Loaded || before.state is Value ==> wakers == task
                    &&& exists|i: int|
                        0 <= i < s.started.len() && #[trigger] s.started[i] == (StartedUpdate {
                            key,
                            is_virtual: before.is_virtual,
                            source_idx,
                            task,
                            wakers,
                            replaced: match before.state {
                                StateView::Loading { task: former, .. } => Replaced::Dropped(former),
                                StateView::Updating { task: former, .. } => Replaced::Cancelled(former),
                                _ => Replaced::Nothing,
                            },
                        })
                }
            }
            &&& forall|i: int|
                #![trigger s.started[i]]
                0 <= i < s.started.len() ==> {
                    &&& s.started[i].task == (next + i) % 0x1_0000_0000_0000_0000
                    &&& s.started[i].source_idx == source_idx
                    &&& s.started[i].key == key ==> order.contains(key) && is_concerned && is_alive(before.state, live)
                }
            &&& forall|i: int, j: int|
                0 <= i < s.started.len() && 0 <= j < s.started.len() && (#[trigger] s.started[i]).key == key && (
                #[trigger] s.started[j]).key == key ==> i == j
        }),
    decreases order.len(),
{
    let s = sweep(order, entries, concerns, source_idx, next, live);
    if order.len() > 0 {
        let rest = order.drop_last();
        let last = order.last();
        let done = sweep(rest, entries, concerns, source_idx, next, live);
        lemma_sweep_is_exact(rest, entries, concerns, source_idx, next, live, key);
        assert(order =~= rest.push(last));
        assert(!rest.contains(last)) by {
            if rest.contains(last) {
                let i = choose|i: int| 0 <= i < rest.len() && rest[i] == last;
                assert(order[i] == order[order.len() - 1]);
            }
        }
        if rest.contains(key) {
            let i = choose|i: int| 0 <= i < rest.len() && rest[i] == key;
            assert(order[i] == key);
        }
        if order.contains(key) && key != last {
            let i = choose|i: int| 0 <= i < order.len() && order[i] == key;
            assert(rest[i] == key);
        }
        assert(order[order.len() - 1] == last);
        let e = entries[last];
        assert(e.can_update(live) <==> is_alive(e.state, live)) by {
            match e.state {
                StateView::Value { weak: Some(resource) } => {
                    if live.contains(resource) {
                        assert(e.state == (StateView::Value { weak: Some(resource) }));
                    }
                },
                _ => {},
            }
        }
        if s.order.len() > done.order.len() {
            assert(s.order =~= done.order.push(last));
            assert(s.order[done.order.len() as int] == last);
        }
        if done.order.contains(key) {
            let i = choose|i: int| 0 <= i < done.order.len() && done.order[i] == key;
            assert(s.order[i] == key);
        }
        if s.order.contains(key) && key != last {
            let i = choose|i: int| 0 <= i < s.order.len() && s.order[i] == key;
            assert(done.order[i] == key);
        }
        if s.started.len() > done.started.len() {
            let task = nth_task(next, done.started.len());
            assert(s.started[done.started.len() as int] == started(last, e, source_idx, task));
        }
        assert forall|i: int| 0 <= i < done.started.len() implies #[trigger] s.started[i] == done.started[i] by {}
        if rest.contains(key) && done.entries.contains_key(key) && done.entries[key].state is Updating {
            assert(s.entries[key] == done.entries[key]);
        }
        if order.contains(key) && key != last && is_alive(entries[key].state, live) && done.started.len() > 0 {
            if exists|i: int| 0 <= i < done.started.len() && (#[trigger] done.started[i]).key == key {
                let i = choose|i: int| 0 <= i < done.started.len() && (#[trigger] done.started[i]).key == key;
                assert(s.started[i] == done.started[i]);
            }
        }
    }
}

/// Other data at the position of the group's present data, or at one that comes before it, is taken
/// whether it is reported as added or as modified: updates are started, the group knows the hash and
/// the position from then on, and an update is started for each entry that is made from data and
/// whose resource is alive, and for no other.
pub proof fn lemma_new_data_is_taken(
    group: GroupView,
    update: UpdateView,
    hash: Seq<char>,
    source_idx: SourceIndex,
    found: Option<SealedView>,
    next: u64,
    live: Seq<u64>,
    key: ResKey,
)
    requires
        group.order.no_duplicates(),
        forall|k: ResKey| #[trigger] group.order.contains(k) <==> group.entries.contains_key(k),
        update == UpdateView::Added(hash) || update == UpdateView::Modified(hash),
        group.metadata.hash != Some(hash),
        source_idx == group.metadata.source_idx || source_idx.before(group.metadata.source_idx),
    ensures
        ({
            let after = group.start_update(update, source_idx, found, next, live);
            &&& after.metadata.hash == Some(hash)
            &&& after.metadata.source_idx == source_idx
            &&& after.loaders == group.loaders
            &&& group.update_outcome(update, source_idx, found, next, live) matches GroupOutcome::Updated(started) && {
                &&& (exists|i: int| 0 <= i < started.len() && (#[trigger] started[i]).key == key) <==> {
                    &&& group.entries.contains_key(key)
                    &&& !group.entries[key].is_virtual
                    &&& is_alive(group.entries[key].state, live)
                }
                &&& forall|i: int| 0 <= i < started.len() ==> (#[trigger] started[i]).source_idx == source_idx
            }
            &&& after.entries.contains_key(key) <==> {
                &&& group.entries.contains_key(key)
                &&& group.entries[key].is_virtual || is_alive(group.entries[key].state, live)
            }
            &&& after.entries.contains_key(key) && group.entries[key].is_virtual ==> after.entries[key]
                == group.entries[key]
            &&& after.entries.contains_key(key) && !group.entries[key].is_virtual ==> after.entries[key].state is Updating
        }),
{
    assert(group.order.contains(key) <==> group.entries.contains_key(key));
    lemma_sweep_is_exact(group.order, group.entries, Concerns::Data, source_idx, next, live, key);
}

/// What is found in place of data that was removed is taken in the same way; if nothing is found,
/// the group stays as it is.
pub proof fn lemma_removed_data_is_replaced(
    group: GroupView,
    source_idx: SourceIndex,
    found: Option<SealedView>,
    next: u64,
    live: Seq<u64>,
    key: ResKey,
)
    requires
        group.order.no_duplicates(),
        forall|k: ResKey| #[trigger] group.order.contains(k) <==> group.entries.contains_key(k),
    ensures
        found matches Some(data) ==> {
            let after = group.start_update(UpdateView::Removed, source_idx, found, next, live);
            &&& after.metadata.hash == Some(data.hash)
            &&& after.metadata.source_idx == data.idx
            &&& group.update_outcome(UpdateView::Removed, source_idx, found, next, live) matches GroupOutcome::Updated(
                started,
            ) && {
                &&& (exists|i: int| 0 <= i < started.len() && (#[trigger] started[i]).key == key) <==> {
                    &&& group.entries.contains_key(key)
                    &&& !group.entries[key].is_virtual
                    &&& is_alive(group.entries[key].state, live)
                }
                &&& forall|i: int| 0 <= i < started.len() ==> (#[trigger] started[i]).source_idx == data.idx
            }
        },
        found is None ==> {
            &&& group.start_update(UpdateView::Removed, source_idx, found, next, live) == group
            &&& group.update_outcome(UpdateView::Removed, source_idx, found, next, live) is Skipped
        },
{
    assert(group.order.contains(key) <==> group.entries.contains_key(key));
    if let Some(data) = found {
        lemma_sweep_is_exact(group.order, group.entries, Concerns::Data, data.idx, next, live, key);
    }
}

/// A source that has got another position takes the group along if and only if the group's data comes
/// from it; no update is started, and no entry changes.
pub proof fn lemma_moved_source_is_followed(
    group: GroupView,
    previous: SourceIndex,
    source_idx: SourceIndex,
    found: Option<SealedView>,
    next: u64,
    live: Seq<u64>,
)
    ensures
        ({
            let update = UpdateView::MovedSourceIndex(previous);
            let after = group.start_update(update, source_idx, found, next, live);
            let outcome = group.update_outcome(update, source_idx, found, next, live);
            &&& after.entries == group.entries
            &&& after.order == group.order
            &&& after.loaders == group.loaders
            &&& after.metadata.hash == group.metadata.hash
            &&& group.metadata.source_idx == previous ==> outcome is Moved && after.metadata.source_idx == source_idx
            &&& group.metadata.source_idx != previous ==> outcome is Skipped && after == group
        }),
{
}

/// After something that the entries with one loader depend on was updated, exactly those of them
/// whose resource is alive get an update, from the data that the group has.
pub proof fn lemma_dependents_are_updated(group: GroupView, by: ResKey, next: u64, live: Seq<u64>, key: ResKey)
    requires
        group.order.no_duplicates(),
        forall|k: ResKey| #[trigger] group.order.contains(k) <==> group.entries.contains_key(k),
    ensures
        ({
            let after = group.start_dependent_update(by, next, live);
            let started = group.dependent_started(by, next, live);
            &&& after.metadata == group.metadata
            &&& after.loaders == group.loaders
            &&& (exists|i: int| 0 <= i < started.len() && (#[trigger] started[i]).key == key) <==> {
                &&& group.entries.contains_key(key)
                &&& key.loader_type == by.loader_type
                &&& is_alive(group.entries[key].state, live)
            }
            &&& forall|i: int|
                0 <= i < started.len() ==> (#[trigger] started[i]).source_idx == group.metadata.source_idx
            &&& group.entries.contains_key(key) && key.loader_type != by.loader_type ==> after.entries.contains_key(key)
                && after.entries[key] == group.entries[key]
        }),
{
    assert(group.order.contains(key) <==> group.entries.contains_key(key));
    lemma_sweep_is_exact(
        group.order,
        group.entries,
        Concerns::Loader(by.loader_type),
        group.metadata.source_idx,
        next,
        live,
        key,
    );
}

/// An entry that is filed is there from then on and all others stay; its loader is known. An entry
/// that is dropped is not there any more and all others stay.
pub proof fn lemma_filing_is_exact(group: GroupView, key: ResKey, entry: EntryView, other: ResKey)
    requires
        group.order.no_duplicates(),
        forall|k: ResKey| #[trigger] group.order.contains(k) <==> group.entries.contains_key(k),
    ensures
        ({
            let filed = group.put(key, entry);
            let dropped = group.drop_key(key);
            &&& filed.entries.contains_key(key) && filed.entries[key] == entry
            &&& filed.order.contains(key)
            &&& filed.order.len() == group.order.len() + (if group.entries.contains_key(key) {
                0int
            } else {
                1int
            })
            &&& filed.loaders.contains(key.loader_type)
            &&& filed.metadata == group.metadata
            &&& !dropped.entries.contains_key(key)
            &&& !dropped.order.contains(key)
            &&& dropped.metadata == group.metadata
            &&& dropped.loaders == group.loaders
            &&& other != key ==> {
                &&& filed.entries.contains_key(other) == group.entries.contains_key(other)
                &&& filed.entries.contains_key(other) ==> filed.entries[other] == group.entries[other]
                &&& dropped.entries.contains_key(other) == group.entries.contains_key(other)
                &&& dropped.entries.contains_key(other) ==> dropped.entries[other] == group.entries[other]
                &&& filed.order.contains(other) == group.order.contains(other)
                &&& dropped.order.contains(other) == group.order.contains(other)
            }
            &&& group.loaders.contains(other.loader_type) ==> filed.loaders.contains(other.loader_type)
        }),
{
    lemma_seq_with(group.order, key);
    crate::util::table::lemma_seq_without(group.order, key);
    assert(group.order.contains(key) <==> group.entries.contains_key(key));
    let known = crate::util::table::seq_with(group.loaders, key.loader_type);
    if !group.loaders.contains(key.loader_type) {
        assert(known[group.loaders.len() as int] == key.loader_type);
    }
    if group.loaders.contains(other.loader_type) {
        let i = choose|i: int| 0 <= i < group.loaders.len() && group.loaders[i] == other.loader_type;
        assert(known[i] == other.loader_type);
    }
}

/// Data that the group has already, or that comes from a source after the present one, changes
/// nothing, however it is reported.
pub proof fn lemma_unfit_data_changes_nothing(
    group: GroupView,
    update: UpdateView,
    hash: Seq<char>,
    source_idx: SourceIndex,
    found: Option<SealedView>,
    next: u64,
    live: Seq<u64>,
)
    requires
        update == UpdateView::Added(hash) || update == UpdateView::Modified(hash),
        group.metadata.hash == Some(hash) || group.metadata.source_idx.before(source_idx),
    ensures
        group.update_outcome(update, source_idx, found, next, live) is Skipped,
        group.start_update(update, source_idx, found, next, live) == group,
{
    crate::resource::source::lemma_index_order_irreflexive(source_idx);
    if source_idx != group.metadata.source_idx {
        crate::resource::source::lemma_index_order_total(source_idx, group.metadata.source_idx);
    }
}

/// A group of which nothing is known takes whatever data is reported first, from wherever it is.
pub proof fn lemma_unknown_group_takes_any(
    update: UpdateView,
    hash: Seq<char>,
    source_idx: SourceIndex,
    found: Option<SealedView>,
    next: u64,
    live: Seq<u64>,
)
    requires
        update == UpdateView::Added(hash) || update == UpdateView::Modified(hash),
    ensures
        GroupView::empty().update_outcome(update, source_idx, found, next, live) is Updated,
        GroupView::empty().start_update(update, source_idx, found, next, live).metadata.hash == Some(hash),
        GroupView::empty().start_update(update, source_idx, found, next, live).metadata.source_idx == source_idx,
        GroupView::empty().order.len() == 0,
        forall|key: ResKey| !#[trigger] GroupView::empty().entries.contains_key(key),
{
    crate::resource::source::lemma_index_bounds(source_idx);
}

/// The keys of updates are those that the updates name.
pub proof fn lemma_keys_of_updates(started: Seq<StartedUpdate>, more: Seq<StartedUpdate>, key: ResKey)
    ensures
        started_keys(started).contains(key) <==> exists|i: int|
            0 <= i < started.len() && (#[trigger] started[i]).key == key,
        started_keys(started + more).contains(key) <==> started_keys(started).contains(key) || started_keys(
            more,
        ).contains(key),
{
    let all = started + more;
    if started_keys(started).contains(key) {
        let i = choose|i: int| 0 <= i < started.len() && (#[trigger] started[i]).key == key;
        assert(all[i].key == key);
    }
    if started_keys(more).contains(key) {
        let i = choose|i: int| 0 <= i < more.len() && (#[trigger] more[i]).key == key;
        assert(all[started.len() + i].key == key);
    }
    if started_keys(all).contains(key) {
        let i = choose|i: int| 0 <= i < all.len() && (#[trigger] all[i]).key == key;
        if i < started.len() {
            assert(started[i].key == key);
        } else {
            assert(more[i - started.len()].key == key);
        }
    }
}

/// Data that is found is seen as what it is.
pub proof fn lemma_found_data_is_seen(found: Option<SealedResourceDataSource>)
    ensures
        found is None <==> sealed_option(found) is None,
        found matches Some(data) ==> sealed_option(found) == Some(SealedView { hash: data.hash@, idx: data.idx }),
{
}

} // verus!
