//! Hierarchies of watchers that report changes of watched resources.
use vstd::prelude::*;

use crate::resource::id::ResourceId;
use crate::resource::source::{
    BulkResourceUpdate, IntoSourceIndex, ResourceUpdate, SourceIndex, UpdateView,
};
use crate::util::table::{lemma_seq_with, lemma_seq_with_all, lemma_seq_without, IdMap, IdSet};

verus! {

/// The sending end of a channel for updates.
#[derive(Debug, Clone, Copy, PartialEq, Eq, Structural)]
pub struct ResourceWatcherSender {
    pub channel: u64,
}

/// Updates, and the position of the source that reports them.
pub struct UpdateMsg {
    pub src_idx: SourceIndex,
    pub bulk_update: BulkResourceUpdate,
}

/// A message that is to be sent.
pub struct Outgoing {
    pub sender: ResourceWatcherSender,
    pub msg: UpdateMsg,
}

/// The mathematical value of an [`Outgoing`] message.
pub struct MsgView {
    pub sender: ResourceWatcherSender,
    pub src_idx: SourceIndex,
    pub order: Seq<ResourceId>,
    pub updates: Map<ResourceId, UpdateView>,
}

impl View for Outgoing {
    type V = MsgView;

    open spec fn view(&self) -> MsgView {
        MsgView {
            sender: self.sender,
            src_idx: self.msg.src_idx,
            order: self.msg.bulk_update@.order,
            updates: self.msg.bulk_update@.updates,
        }
    }
}

/// The values of several messages.
pub open spec fn messages(out: Seq<Outgoing>) -> Seq<MsgView> {
    out.map_values(|o: Outgoing| o@)
}

/// Whether messages that were to be sent before are still to be sent, unchanged and first.
pub open spec fn is_kept(before: Seq<Outgoing>, after: Seq<Outgoing>) -> bool {
    &&& before.len() <= after.len()
    &&& forall|i: int| 0 <= i < before.len() ==> #[trigger] after[i] == before[i]
}

/// What a watcher reports as, and where to.
pub struct ResourceWatcherConfig {
    pub src_idx: SourceIndex,
    pub sender: ResourceWatcherSender,
}

impl ResourceWatcherConfig {
    /// The same destination, at a position below.
    pub open spec fn below(self, sub_idx: SourceIndex) -> ResourceWatcherConfig {
        ResourceWatcherConfig { src_idx: self.src_idx.append(sub_idx), sender: self.sender }
    }

    /// The configuration for the child with number `i`.
    pub open spec fn child(self, i: usize) -> ResourceWatcherConfig {
        self.below(SourceIndex::leaf(i))
    }

    /// A copy.
    pub fn duplicate(&self) -> (r: Self)
        ensures
            r == *self,
    {
        ResourceWatcherConfig { src_idx: self.src_idx.clone(), sender: self.sender }
    }

    /// The same destination, at a position below.
    pub fn clone_with_sub_index<I: IntoSourceIndex>(&self, sub_idx: I) -> (r: Self)
        ensures
            r == self.below(sub_idx.as_position()),
    {
        ResourceWatcherConfig {
            src_idx: self.src_idx.clone().with_nested_idx(sub_idx),
            sender: self.sender,
        }
    }
}

/// The mathematical value of a [`ResourceWatcher`].
pub struct WatcherModel {
    pub config: Option<ResourceWatcherConfig>,
    pub children: Seq<WatcherModel>,
    /// The hashes that the source has at present.
    pub hashes: Map<ResourceId, Seq<char>>,
    /// What is watched in this source, and in part of the sources below.
    pub partial_watches: Seq<ResourceId>,
    /// What is watched in this source and all sources below.
    pub watches: Seq<ResourceId>,
}

/// The identifiers that have a hash, in order.
pub open spec fn hashed(ids: Seq<ResourceId>, hashes: Map<ResourceId, Seq<char>>) -> Seq<ResourceId>
    decreases ids.len(),
{
    if ids.len() == 0 {
        Seq::empty()
    } else if hashes.contains_key(ids.last()) {
        hashed(ids.drop_last(), hashes).push(ids.last())
    } else {
        hashed(ids.drop_last(), hashes)
    }
}

/// The message that reports one kind of update for the given identifiers; none, if there is
/// nothing to report or nowhere to report to.
pub open spec fn report(
    config: Option<ResourceWatcherConfig>,
    ids: Seq<ResourceId>,
    update: spec_fn(ResourceId) -> UpdateView,
) -> Seq<MsgView> {
    match config {
        Some(c) if ids.len() > 0 => seq![
            MsgView {
                sender: c.sender,
                src_idx: c.src_idx,
                order: ids,
                updates: Map::new(|id: ResourceId| ids.contains(id), update),
            },
        ],
        _ => Seq::empty(),
    }
}

impl WatcherModel {
    /// Everything that is watched.
    pub open spec fn all_watches(self) -> Seq<ResourceId> {
        crate::util::table::seq_with_all(self.watches, self.partial_watches)
    }

    /// Whether an identifier is watched.
    pub open spec fn is_watched(self, id: ResourceId) -> bool {
        self.watches.contains(id) || self.partial_watches.contains(id)
    }

    /// The watched identifiers that have a hash.
    pub open spec fn reported(self) -> Seq<ResourceId> {
        hashed(self.all_watches(), self.hashes)
    }

    /// What is reported about an identifier when the watcher is configured: that it is there, or,
    /// if the watcher was configured before, where it was reported from.
    pub open spec fn on_configure(self, id: ResourceId) -> UpdateView {
        match self.config {
            Some(c) => UpdateView::MovedSourceIndex(c.src_idx),
            None => UpdateView::Added(self.hashes[id]),
        }
    }

    /// The watcher after it and its children from `start` on have been configured.
    pub open spec fn configure(self, config: ResourceWatcherConfig, start: int) -> WatcherModel
        decreases self, 0nat,
    {
        WatcherModel {
            config: Some(config),
            children: WatcherModel::configure_list(self.children, start, config),
            ..self
        }
    }

    /// Children, those from `start` on configured.
    pub open spec fn configure_list(
        children: Seq<WatcherModel>,
        start: int,
        config: ResourceWatcherConfig,
    ) -> Seq<WatcherModel>
        decreases children, 1nat,
    {
        Seq::new(
            children.len(),
            |i: int|
                if 0 <= i < children.len() && start <= i {
                    children[i].configure(config.child(i as usize), 0)
                } else {
                    children[i]
                },
        )
    }

    /// What configuring reports: the watcher's own update first, then those of the children.
    pub open spec fn configure_msgs(self, config: ResourceWatcherConfig, start: int) -> Seq<MsgView>
        decreases self, 0nat,
    {
        report(Some(config), self.reported(), |id: ResourceId| self.on_configure(id))
            + WatcherModel::configure_list_msgs(self.children, start, config, self.children.len())
    }

    /// What configuring the children from `start` up to `end` reports.
    pub open spec fn configure_list_msgs(
        children: Seq<WatcherModel>,
        start: int,
        config: ResourceWatcherConfig,
        end: nat,
    ) -> Seq<MsgView>
        decreases children, end + 1,
    {
        if end == 0 || end > children.len() || end <= start {
            Seq::empty()
        } else {
            WatcherModel::configure_list_msgs(children, start, config, (end - 1) as nat)
                + children[end - 1].configure_msgs(config.child((end - 1) as usize), 0)
        }
    }

    /// The watcher after its children from `start` on have been told where they are, which needs
    /// the watcher itself to be configured.
    pub open spec fn reconfigure(self, start: int) -> WatcherModel {
        match self.config {
            Some(config) => WatcherModel {
                children: WatcherModel::configure_list(self.children, start, config),
                ..self
            },
            None => self,
        }
    }

    /// What [`WatcherModel::reconfigure`] reports.
    pub open spec fn reconfigure_msgs(self, start: int) -> Seq<MsgView> {
        match self.config {
            Some(config) => WatcherModel::configure_list_msgs(
                self.children,
                start,
                config,
                self.children.len(),
            ),
            None => Seq::empty(),
        }
    }

    /// The watcher after it and everything below it has been unconfigured: nothing is watched.
    pub open spec fn unconfigure(self) -> WatcherModel
        decreases self,
    {
        WatcherModel {
            config: None,
            watches: Seq::empty(),
            partial_watches: Seq::empty(),
            children: Seq::new(
                self.children.len(),
                |i: int|
                    if 0 <= i < self.children.len() {
                        self.children[i].unconfigure()
                    } else {
                        self.children[i]
                    },
            ),
            ..self
        }
    }

    /// What unconfiguring reports: that everything is gone, the watcher's own first.
    pub open spec fn unconfigure_msgs(self) -> Seq<MsgView>
        decreases self, 0nat,
    {
        report(self.config, self.reported(), |id: ResourceId| UpdateView::Removed)
            + WatcherModel::unconfigure_list_msgs(self.children, self.children.len())
    }

    /// What unconfiguring the first `end` children reports.
    pub open spec fn unconfigure_list_msgs(children: Seq<WatcherModel>, end: nat) -> Seq<MsgView>
        decreases children, end + 1,
    {
        if end == 0 || end > children.len() {
            Seq::empty()
        } else {
            WatcherModel::unconfigure_list_msgs(children, (end - 1) as nat)
                + children[end - 1].unconfigure_msgs()
        }
    }

    /// How far down `sub_idx` limits a watch.
    pub open spec fn limit(sub_idx: Option<SourceIndex>) -> SourceIndex {
        match sub_idx {
            Some(position) => position,
            None => SourceIndex::greatest(),
        }
    }

    /// The watcher after it watches `id`, up to the position `sub_idx` below it.
    pub open spec fn watch(self, id: ResourceId, sub_idx: Option<SourceIndex>) -> WatcherModel
        decreases self,
    {
        let limit = WatcherModel::limit(sub_idx);
        WatcherModel {
            watches: if sub_idx.is_none() {
                crate::util::table::seq_with(self.watches, id)
            } else {
                self.watches
            },
            partial_watches: if sub_idx.is_some() {
                crate::util::table::seq_with(self.partial_watches, id)
            } else {
                self.partial_watches
            },
            children: Seq::new(
                self.children.len(),
                |i: int|
                    if 0 <= i < self.children.len() {
                        if i <= limit.idx {
                            self.children[i].watch(id, limit.below())
                        } else {
                            self.children[i].unwatch(id)
                        }
                    } else {
                        self.children[i]
                    },
            ),
            ..self
        }
    }

    /// The watcher after it and everything below it has stopped watching `id`.
    pub open spec fn unwatch(self, id: ResourceId) -> WatcherModel
        decreases self,
    {
        WatcherModel {
            watches: crate::util::table::seq_without(self.watches, id),
            partial_watches: crate::util::table::seq_without(self.partial_watches, id),
            children: Seq::new(
                self.children.len(),
                |i: int|
                    if 0 <= i < self.children.len() {
                        self.children[i].unwatch(id)
                    } else {
                        self.children[i]
                    },
            ),
            ..self
        }
    }

    /// The watcher after it and everything below it watches `ids` as well.
    pub open spec fn add_watches(self, ids: Seq<ResourceId>) -> WatcherModel
        decreases self,
    {
        WatcherModel {
            watches: crate::util::table::seq_with_all(self.watches, ids),
            children: Seq::new(
                self.children.len(),
                |i: int|
                    if 0 <= i < self.children.len() {
                        self.children[i].add_watches(ids)
                    } else {
                        self.children[i]
                    },
            ),
            ..self
        }
    }

    /// The watcher with `child` put before the child with number `idx`, from which it takes over
    /// everything that is watched, or put last.
    pub open spec fn with_child(self, idx: int, child: WatcherModel) -> WatcherModel {
        if idx < self.children.len() {
            WatcherModel {
                children: self.children.insert(
                    idx,
                    child.add_watches(self.children[idx].all_watches()),
                ),
                ..self
            }
        } else {
            WatcherModel { children: self.children.push(child.add_watches(self.watches)), ..self }
        }
    }

    /// The watcher without the child with number `idx`.
    pub open spec fn without_child(self, idx: int) -> WatcherModel {
        WatcherModel { children: self.children.remove(idx), ..self }
    }
}

/// Watches a source for changes, and passes on to its children what concerns the sources below.
pub struct ResourceWatcher {
    config: Option<ResourceWatcherConfig>,
    children: Vec<ResourceWatcher>,
    provider: IdMap<ResourceId, String>,
    partial_watches: IdSet<ResourceId>,
    watches: IdSet<ResourceId>,
}

impl View for ResourceWatcher {
    type V = WatcherModel;

    closed spec fn view(&self) -> WatcherModel {
        self.model()
    }
}

impl ResourceWatcher {
    spec fn model(&self) -> WatcherModel
        decreases self,
    {
        WatcherModel {
            config: self.config,
            children: Seq::new(
                self.children@.len(),
                |i: int|
                    if 0 <= i < self.children@.len() {
                        self.children@[i].model()
                    } else {
                        arbitrary()
                    },
            ),
            hashes: self.provider@.map_values(|h: String| h@),
            partial_watches: self.partial_watches@,
            watches: self.watches@,
        }
    }

    /// All tables of the watcher and of everything below it are in order.
    pub closed spec fn wf(&self) -> bool
        decreases self,
    {
        &&& self.provider.wf()
        &&& self.partial_watches.wf()
        &&& self.watches.wf()
        &&& forall|i: int| 0 <= i < self.children@.len() ==> (#[trigger] self.children@[i]).wf()
    }

    /// A watcher that is not configured, for a source with the given hashes.
    pub fn new(provider: IdMap<ResourceId, String>) -> (r: Self)
        requires
            provider.wf(),
        ensures
            r.wf(),
            r@.config == None::<ResourceWatcherConfig>,
            r@.children == Seq::<WatcherModel>::empty(),
            r@.hashes == provider@.map_values(|h: String| h@),
            r@.partial_watches == Seq::<ResourceId>::empty(),
            r@.watches == Seq::<ResourceId>::empty(),
    {
        let r = ResourceWatcher {
            config: None,
            children: Vec::new(),
            provider,
            partial_watches: IdSet::new(),
            watches: IdSet::new(),
        };
        assert(r@.children =~= Seq::<WatcherModel>::empty());
        r
    }

    /// A watcher that is not configured, with the given children, which are unconfigured as well.
    pub fn with_children(
        provider: IdMap<ResourceId, String>,
        children: Vec<ResourceWatcher>,
        out: &mut Vec<Outgoing>,
    ) -> (r: Self)
        requires
            provider.wf(),
            forall|i: int| 0 <= i < children@.len() ==> (#[trigger] children@[i]).wf(),
        ensures
            r.wf(),
            r@.config == None::<ResourceWatcherConfig>,
            r@.children == Seq::new(children@.len(), |i: int| children@[i]@.unconfigure()),
            r@.hashes == provider@.map_values(|h: String| h@),
            r@.partial_watches == Seq::<ResourceId>::empty(),
            r@.watches == Seq::<ResourceId>::empty(),
            is_kept(old(out)@, final(out)@),
            messages(final(out)@) == messages(old(out)@) + WatcherModel::unconfigure_list_msgs(
                Seq::new(children@.len(), |i: int| children@[i]@),
                children@.len(),
            ),
    {
        let mut r = ResourceWatcher {
            config: None,
            children,
            provider,
            partial_watches: IdSet::new(),
            watches: IdSet::new(),
        };
        let ghost models = Seq::new(children@.len(), |i: int| children@[i]@);
        assert(r@.children =~= models);
        r.unconfigure_children(out);
        assert(r@.children =~= Seq::new(children@.len(), |i: int| children@[i]@.unconfigure()));
        r
    }

    /// Replaces the hashes that the source has.
    pub fn set_provider(&mut self, provider: IdMap<ResourceId, String>)
        requires
            old(self).wf(),
            provider.wf(),
        ensures
            final(self).wf(),
            final(self)@ == (WatcherModel {
                hashes: provider@.map_values(|h: String| h@),
                ..old(self)@
            }),
    {
        self.provider = provider;
        assert(self@.children =~= old(self)@.children);
    }

    /// Reports updates, if there are any and the watcher is configured.
    pub fn notify_update(&self, bulk_update: BulkResourceUpdate, out: &mut Vec<Outgoing>)
        ensures
            final(out)@ == (match self@.config {
                Some(config) if bulk_update@.order.len() > 0 => old(out)@.push(
                    Outgoing {
                        sender: config.sender,
                        msg: UpdateMsg { src_idx: config.src_idx, bulk_update },
                    },
                ),
                _ => old(out)@,
            }),
    {
        if bulk_update.updates.len() > 0 {
            match &self.config {
                Some(config) => {
                    let src_idx = config.src_idx.clone();
                    out.push(Outgoing { sender: config.sender, msg: UpdateMsg { src_idx, bulk_update } });
                },
                None => {},
            }
        }
    }

    /// Everything that is watched.
    fn all_watches(&self) -> (r: IdSet<ResourceId>)
        requires
            self.wf(),
        ensures
            r.wf(),
            r@ == self@.all_watches(),
    {
        let mut all = self.watches.duplicate();
        all.insert_all(&self.partial_watches);
        all
    }

    /// Whether an identifier is watched.
    pub fn is_watched(&self, id: &ResourceId) -> (r: bool)
        ensures
            r == self@.is_watched(*id),
    {
        self.watches.contains(id) || self.partial_watches.contains(id)
    }

    /// What a watcher tells about its configuration.
    pub fn source_index(&self) -> (r: Option<SourceIndex>)
        ensures
            r == (match self@.config {
                Some(config) => Some(config.src_idx),
                None => None,
            }),
    {
        match &self.config {
            Some(config) => Some(config.src_idx.clone()),
            None => None,
        }
    }

    /// The number of children.
    pub fn child_count(&self) -> (r: usize)
        ensures
            r == self@.children.len(),
    {
        self.children.len()
    }

    /// The child with number `idx`.
    pub fn child(&self, idx: usize) -> (r: &ResourceWatcher)
        requires
            self.wf(),
            idx < self@.children.len(),
        ensures
            r.wf(),
            r@ == self@.children[idx as int],
    {
        &self.children[idx]
    }

    /// Keeps the identifiers that are watched, in their order.
    pub fn filter_watched(&self, ids: &Vec<ResourceId>) -> (r: Vec<ResourceId>)
        ensures
            r@ == ids@.filter(|id: ResourceId| self@.is_watched(id)),
    {
        broadcast use vstd::seq_lib::group_filter_ensures;

        let mut kept: Vec<ResourceId> = Vec::new();
        let mut i: usize = 0;
        let ghost pred = |id: ResourceId| self@.is_watched(id);
        assert(ids@.take(0).filter(pred) =~= Seq::<ResourceId>::empty());
        while i < ids.len()
            invariant
                i <= ids@.len(),
                pred == (|id: ResourceId| self@.is_watched(id)),
                kept@ == ids@.take(i as int).filter(pred),
            decreases ids@.len() - i,
        {
            assert(ids@.take(i + 1).drop_last() =~= ids@.take(i as int));
            reveal(Seq::filter);
            if self.is_watched(&ids[i]) {
                kept.push(ids[i]);
            }
            i += 1;
        }
        assert(ids@.take(ids@.len() as int) =~= ids@);
        kept
    }

    /// Collects one kind of update for everything watched that has a hash.
    fn collect_updates(&self, kind: &UpdateKind) -> (r: BulkResourceUpdate)
        requires
            self.wf(),
        ensures
            r.wf(),
            r@.order == self@.reported(),
            r@.updates == Map::new(
                |id: ResourceId| self@.reported().contains(id),
                |id: ResourceId| kind.update(self@, id),
            ),
    {
        let ids = self.all_watches();
        let mut updates: IdMap<ResourceId, ResourceUpdate> = IdMap::new();
        let ghost hashes = self@.hashes;
        let mut i: usize = 0;
        proof {
            lemma_seq_with_all(self.watches@, self.partial_watches@);
            assert(ids@.take(0) =~= Seq::<ResourceId>::empty());
        }
        assert(updates@.map_values(|u: ResourceUpdate| u@) =~= Map::new(
            |id: ResourceId| hashed(ids@.take(0), hashes).contains(id),
            |id: ResourceId| kind.update(self@, id),
        ));
        while i < ids.len()
            invariant
                self.wf(),
                ids.wf(),
                i <= ids@.len(),
                hashes == self@.hashes,
                updates.wf(),
                updates.keys() == hashed(ids@.take(i as int), hashes),
                updates@.map_values(|u: ResourceUpdate| u@) == Map::new(
                    |id: ResourceId| hashed(ids@.take(i as int), hashes).contains(id),
                    |id: ResourceId| kind.update(self@, id),
                ),
            decreases ids@.len() - i,
        {
            let id: ResourceId = *ids.at(i);
            let ghost done = hashed(ids@.take(i as int), hashes);
            let ghost before = updates@.map_values(|u: ResourceUpdate| u@);
            proof {
                assert(ids@.take(i + 1).drop_last() =~= ids@.take(i as int));
                lemma_hashed(ids@.take(i as int), hashes);
                assert(!done.contains(id)) by {
                    if ids@.take(i as int).contains(id) {
                        let j = choose|j: int| 0 <= j < i && ids@.take(i as int)[j] == id;
                        assert(ids@[j] == ids@[i as int]);
                    }
                }
            }
            match self.provider.get(&id) {
                Some(hash) => {
                    let update = match kind {
                        UpdateKind::Moved(src_idx) => ResourceUpdate::MovedSourceIndex(src_idx.clone()),
                        UpdateKind::Added => ResourceUpdate::Added(hash.clone()),
                        UpdateKind::Removed => ResourceUpdate::Removed,
                    };
                    assert(hashes.contains_key(id) && hashes[id] == hash@);
                    assert(update@ == kind.update(self@, id));
                    let ghost u = update;
                    let _ = updates.insert(id, update);
                    proof {
                        assert(hashed(ids@.take(i + 1), hashes) =~= done.push(id));
                        let after = updates@.map_values(|u: ResourceUpdate| u@);
                        let want = Map::new(
                            |id: ResourceId| hashed(ids@.take(i + 1), hashes).contains(id),
                            |id: ResourceId| kind.update(self@, id),
                        );
                        assert forall|x: ResourceId| #[trigger] after.contains_key(x) <==> want.contains_key(x) by {
                            lemma_push_id(done, id, x);
                            assert(before.contains_key(x) <==> done.contains(x));
                        }
                        assert forall|x: ResourceId| #[trigger] after.contains_key(x) implies after[x] == want[x] by {
                            if x != id {
                                assert(before.contains_key(x));
                                assert(after[x] == before[x]);
                            }
                        }
                        assert(after =~= want);
                    }
                },
                None => {
                    assert(!hashes.contains_key(id));
                    assert(hashed(ids@.take(i + 1), hashes) == done);
                },
            }
            i += 1;
        }
        assert(ids@.take(ids@.len() as int) =~= ids@);
        BulkResourceUpdate::new(updates)
    }

    /// Tells the children from `start` on where they are.
    fn configure_children(&mut self, start: usize, config: &ResourceWatcherConfig, out: &mut Vec<Outgoing>)
        requires
            old(self).wf(),
        ensures
            final(self).wf(),
            final(self)@ == (WatcherModel {
                children: WatcherModel::configure_list(old(self)@.children, start as int, *config),
                ..old(self)@
            }),
            is_kept(old(out)@, final(out)@),
            messages(final(out)@) == messages(old(out)@) + WatcherModel::configure_list_msgs(
                old(self)@.children,
                start as int,
                *config,
                old(self)@.children.len(),
            ),
        decreases old(self).children, 0int,
    {
        let ghost pre = *self;
        let ghost sent = messages(out@);
        let n: usize = self.children.len();
        let mut i: usize = start;
        proof {
            assert(sent + WatcherModel::configure_list_msgs(pre@.children, start as int, *config, start as nat)
                =~= sent);
        }
        while i < n
            invariant
                pre == *old(self),
                pre.wf(),
                n == pre.children@.len(),
                start <= i,
                self.config == pre.config,
                self.provider == pre.provider,
                self.partial_watches == pre.partial_watches,
                self.watches == pre.watches,
                self.children@.len() == n,
                forall|j: int| 0 <= j < n ==> (#[trigger] self.children@[j]).wf(),
                forall|j: int|
                    0 <= j < n && (j < start || i <= j) ==> #[trigger] self.children@[j] == pre.children@[j],
                forall|j: int|
                    start <= j < i && j < n ==> (#[trigger] self.children@[j])@
                        == pre.children@[j]@.configure(config.child(j as usize), 0),
                is_kept(old(out)@, out@),
                i <= n ==> messages(out@) == sent + WatcherModel::configure_list_msgs(
                    pre@.children,
                    start as int,
                    *config,
                    i as nat,
                ),
                i > n ==> i == start && messages(out@) == sent,
            decreases n - i,
        {
            let child_config = config.clone_with_sub_index(i);
            assert(self.children@[i as int] == pre.children@[i as int]);
            assert(pre.children@[i as int].wf());
            let ghost before = self.children@;
            let ghost sent_before = messages(out@);
            self.children[i].configure_from(child_config, 0, out);
            proof {
                assert(pre@.children[i as int] == pre.children@[i as int]@);
                assert(messages(out@) =~= sent + WatcherModel::configure_list_msgs(
                    pre@.children,
                    start as int,
                    *config,
                    (i + 1) as nat,
                ));
                assert forall|j: int|
                    start <= j < i + 1 && j < n implies (#[trigger] self.children@[j])@
                        == pre.children@[j]@.configure(config.child(j as usize), 0) by {
                    if j < i {
                        assert(self.children@[j] == before[j]);
                    }
                }
            }
            i += 1;
        }
        proof {
            assert(self@.children =~= WatcherModel::configure_list(pre@.children, start as int, *config)) by {
                assert forall|j: int| 0 <= j < n implies #[trigger] self@.children[j]
                    == WatcherModel::configure_list(pre@.children, start as int, *config)[j] by {
                    assert(self@.children[j] == self.children@[j]@);
                    assert(pre@.children[j] == pre.children@[j]@);
                }
            }
            if i > n {
                assert(WatcherModel::configure_list_msgs(pre@.children, start as int, *config, n as nat)
                    =~= Seq::<MsgView>::empty());
                assert(sent + Seq::<MsgView>::empty() =~= sent);
            }
        }
    }

    fn configure_from(&mut self, config: ResourceWatcherConfig, start: usize, out: &mut Vec<Outgoing>)
        requires
            old(self).wf(),
        ensures
            final(self).wf(),
            final(self)@ == old(self)@.configure(config, start as int),
            is_kept(old(out)@, final(out)@),
            messages(final(out)@) == messages(old(out)@) + old(self)@.configure_msgs(config, start as int),
        decreases old(self).children, 1int,
    {
        let ghost pre = *self;
        let ghost sent = messages(out@);
        let kind = match &self.config {
            Some(previous) => UpdateKind::Moved(previous.src_idx.clone()),
            None => UpdateKind::Added,
        };
        let update = self.collect_updates(&kind);
        proof {
            assert forall|id: ResourceId| #[trigger] kind.update(pre@, id) == pre@.on_configure(id) by {}
            assert(update@.updates =~= Map::new(
                |id: ResourceId| pre@.reported().contains(id),
                |id: ResourceId| pre@.on_configure(id),
            ));
        }
        let own = config.duplicate();
        self.config = Some(config);
        assert(self@.children =~= pre@.children);
        self.notify_update(update, out);
        assert(messages(out@) =~= sent + report(
            Some(config),
            pre@.reported(),
            |id: ResourceId| pre@.on_configure(id),
        ));
        self.configure_children(start, &own, out);
        assert(messages(out@) =~= sent + pre@.configure_msgs(config, start as int));
    }

    /// Configures the watcher and everything below it.
    ///
    /// What is watched and has a hash is reported: as added, or, if the watcher was configured
    /// before, as moved from where it was.
    pub fn configure(&mut self, config: ResourceWatcherConfig, out: &mut Vec<Outgoing>)
        requires
            old(self).wf(),
        ensures
            final(self).wf(),
            final(self)@ == old(self)@.configure(config, 0),
            is_kept(old(out)@, final(out)@),
            messages(final(out)@) == messages(old(out)@) + old(self)@.configure_msgs(config, 0),
    {
        self.configure_from(config, 0, out);
    }

    /// Tells the children from `start` on where they are, if the watcher is configured.
    fn reconfigure(&mut self, start: usize, out: &mut Vec<Outgoing>)
        requires
            old(self).wf(),
        ensures
            final(self).wf(),
            final(self)@ == old(self)@.reconfigure(start as int),
            is_kept(old(out)@, final(out)@),
            messages(final(out)@) == messages(old(out)@) + old(self)@.reconfigure_msgs(start as int),
    {
        let config = match &self.config {
            Some(config) => Some(config.duplicate()),
            None => None,
        };
        match config {
            Some(config) => {
                self.configure_children(start, &config, out);
            },
            None => {
                assert(messages(out@) + Seq::<MsgView>::empty() =~= messages(out@));
            },
        }
    }

    fn unconfigure_children(&mut self, out: &mut Vec<Outgoing>)
        requires
            old(self).wf(),
        ensures
            final(self).wf(),
            final(self)@ == (WatcherModel {
                children: Seq::new(
                    old(self)@.children.len(),
                    |i: int| old(self)@.children[i].unconfigure(),
                ),
                ..old(self)@
            }),
            is_kept(old(out)@, final(out)@),
            messages(final(out)@) == messages(old(out)@) + WatcherModel::unconfigure_list_msgs(
                old(self)@.children,
                old(self)@.children.len(),
            ),
        decreases *old(self), 0int,
    {
        let ghost pre = *self;
        let ghost sent = messages(out@);
        let n: usize = self.children.len();
        let mut i: usize = 0;
        assert(sent + WatcherModel::unconfigure_list_msgs(pre@.children, 0) =~= sent);
        while i < n
            invariant
                pre == *old(self),
                pre.wf(),
                n == pre.children@.len(),
                i <= n,
                self.config == pre.config,
                self.provider == pre.provider,
                self.partial_watches == pre.partial_watches,
                self.watches == pre.watches,
                self.children@.len() == n,
                forall|j: int| 0 <= j < n ==> (#[trigger] self.children@[j]).wf(),
                forall|j: int| i <= j < n ==> #[trigger] self.children@[j] == pre.children@[j],
                forall|j: int|
                    0 <= j < i ==> (#[trigger] self.children@[j])@ == pre.children@[j]@.unconfigure(),
                is_kept(old(out)@, out@),
                messages(out@) == sent + WatcherModel::unconfigure_list_msgs(pre@.children, i as nat),
            decreases n - i,
        {
            assert(self.children@[i as int] == pre.children@[i as int]);
            assert(pre.children@[i as int].wf());
            let ghost before = self.children@;
            self.children[i].unconfigure(out);
            proof {
                assert(pre@.children[i as int] == pre.children@[i as int]@);
                assert(messages(out@) =~= sent + WatcherModel::unconfigure_list_msgs(
                    pre@.children,
                    (i + 1) as nat,
                ));
                assert forall|j: int| 0 <= j < i + 1 implies (#[trigger] self.children@[j])@
                    == pre.children@[j]@.unconfigure() by {
                    if j < i {
                        assert(self.children@[j] == before[j]);
                    }
                }
            }
            i += 1;
        }
        assert(self@.children =~= Seq::new(
            pre@.children.len(),
            |i: int| pre@.children[i].unconfigure(),
        )) by {
            assert forall|j: int| 0 <= j < n implies #[trigger] self@.children[j]
                == pre@.children[j].unconfigure() by {
                assert(self@.children[j] == self.children@[j]@);
                assert(pre@.children[j] == pre.children@[j]@);
            }
        }
    }

    /// Unconfigures the watcher and everything below it. Nothing is watched any more, and what
    /// was watched and has a hash is reported as removed.
    pub fn unconfigure(&mut self, out: &mut Vec<Outgoing>)
        requires
            old(self).wf(),
        ensures
            final(self).wf(),
            final(self)@ == old(self)@.unconfigure(),
            is_kept(old(out)@, final(out)@),
            messages(final(out)@) == messages(old(out)@) + old(self)@.unconfigure_msgs(),
        decreases *old(self), 1int,
    {
        let ghost pre = *self;
        let ghost sent = messages(out@);
        let kind = UpdateKind::Removed;
        let update = self.collect_updates(&kind);
        assert(update@.updates =~= Map::new(
            |id: ResourceId| pre@.reported().contains(id),
            |id: ResourceId| UpdateView::Removed,
        ));
        self.notify_update(update, out);
        assert(messages(out@) =~= sent + report(
            pre@.config,
            pre@.reported(),
            |id: ResourceId| UpdateView::Removed,
        ));
        self.unconfigure_children(out);
        assert(messages(out@) =~= sent + pre@.unconfigure_msgs());
        let ghost mid = *self;
        self.watches.clear();
        self.partial_watches.clear();
        self.config = None;
        assert(self@.children =~= mid@.children);
        assert(self@.children =~= pre@.unconfigure().children);
    }

    /// Watches an identifier, in this source and in the sources below, up to the position
    /// `sub_idx` or in all of them. Sources beyond that position stop watching it.
    pub fn watch(&mut self, id: ResourceId, sub_idx: Option<SourceIndex>)
        requires
            old(self).wf(),
        ensures
            final(self).wf(),
            final(self)@ == old(self)@.watch(id, sub_idx),
        decreases *old(self),
    {
        let ghost pre = *self;
        let ghost wanted = sub_idx;
        proof {
            lemma_seq_with(self.watches@, id);
            lemma_seq_with(self.partial_watches@, id);
        }
        let limit = match sub_idx {
            Some(position) => {
                let _ = self.partial_watches.insert(id);
                position
            },
            None => {
                let _ = self.watches.insert(id);
                SourceIndex::max()
            },
        };
        let n: usize = self.children.len();
        let mut i: usize = 0;
        let ghost partial = self.partial_watches;
        let ghost full = self.watches;
        while i < n
            invariant
                pre == *old(self),
                pre.wf(),
                limit == WatcherModel::limit(wanted),
                n == pre.children@.len(),
                i <= n,
                self.config == pre.config,
                self.provider == pre.provider,
                self.partial_watches == partial,
                self.watches == full,
                self.children@.len() == n,
                forall|j: int| 0 <= j < n ==> (#[trigger] self.children@[j]).wf(),
                forall|j: int| i <= j < n ==> #[trigger] self.children@[j] == pre.children@[j],
                forall|j: int|
                    0 <= j < i ==> (#[trigger] self.children@[j])@ == (if j <= limit.idx {
                        pre.children@[j]@.watch(id, limit.below())
                    } else {
                        pre.children@[j]@.unwatch(id)
                    }),
            decreases n - i,
        {
            assert(self.children@[i as int] == pre.children@[i as int]);
            assert(pre.children@[i as int].wf());
            let ghost before = self.children@;
            if i <= limit.idx() {
                let below = match limit.sub_idx() {
                    Some(position) => Some(position.clone()),
                    None => None,
                };
                self.children[i].watch(id, below);
            } else {
                self.children[i].unwatch(&id);
            }
            proof {
                assert forall|j: int| 0 <= j < i + 1 implies (#[trigger] self.children@[j])@ == (if j <= limit.idx {
                    pre.children@[j]@.watch(id, limit.below())
                } else {
                    pre.children@[j]@.unwatch(id)
                }) by {
                    if j < i {
                        assert(self.children@[j] == before[j]);
                    }
                }
            }
            i += 1;
        }
        assert(self@.children =~= pre@.watch(id, wanted).children) by {
            assert forall|j: int| 0 <= j < n implies #[trigger] self@.children[j]
                == pre@.watch(id, wanted).children[j] by {
                assert(self@.children[j] == self.children@[j]@);
                assert(pre@.children[j] == pre.children@[j]@);
            }
        }
    }

    /// Stops watching an identifier, in this source and in all sources below.
    pub fn unwatch(&mut self, id: &ResourceId)
        requires
            old(self).wf(),
        ensures
            final(self).wf(),
            final(self)@ == old(self)@.unwatch(*id),
        decreases *old(self),
    {
        let ghost pre = *self;
        let n: usize = self.children.len();
        let mut i: usize = 0;
        while i < n
            invariant
                pre == *old(self),
                pre.wf(),
                n == pre.children@.len(),
                i <= n,
                self.config == pre.config,
                self.provider == pre.provider,
                self.partial_watches == pre.partial_watches,
                self.watches == pre.watches,
                self.children@.len() == n,
                forall|j: int| 0 <= j < n ==> (#[trigger] self.children@[j]).wf(),
                forall|j: int| i <= j < n ==> #[trigger] self.children@[j] == pre.children@[j],
                forall|j: int|
                    0 <= j < i ==> (#[trigger] self.children@[j])@ == pre.children@[j]@.unwatch(*id),
            decreases n - i,
        {
            assert(self.children@[i as int] == pre.children@[i as int]);
            assert(pre.children@[i as int].wf());
            let ghost before = self.children@;
            self.children[i].unwatch(id);
            proof {
                assert forall|j: int| 0 <= j < i + 1 implies (#[trigger] self.children@[j])@
                    == pre.children@[j]@.unwatch(*id) by {
                    if j < i {
                        assert(self.children@[j] == before[j]);
                    }
                }
            }
            i += 1;
        }
        proof {
            lemma_seq_without(self.watches@, *id);
            lemma_seq_without(self.partial_watches@, *id);
        }
        let _ = self.partial_watches.remove(id);
        let _ = self.watches.remove(id);
        assert(self@.children =~= pre@.unwatch(*id).children) by {
            assert forall|j: int| 0 <= j < n implies #[trigger] self@.children[j]
                == pre@.unwatch(*id).children[j] by {
                assert(self@.children[j] == self.children@[j]@);
                assert(pre@.children[j] == pre.children@[j]@);
            }
        }
    }

    /// Watches more identifiers, in this source and in all sources below.
    fn add_watches(&mut self, ids: &IdSet<ResourceId>)
        requires
            old(self).wf(),
        ensures
            final(self).wf(),
            final(self)@ == old(self)@.add_watches(ids@),
        decreases *old(self),
    {
        let ghost pre = *self;
        self.watches.insert_all(ids);
        let ghost full = self.watches;
        let n: usize = self.children.len();
        let mut i: usize = 0;
        while i < n
            invariant
                pre == *old(self),
                pre.wf(),
                n == pre.children@.len(),
                i <= n,
                self.config == pre.config,
                self.provider == pre.provider,
                self.partial_watches == pre.partial_watches,
                self.watches == full,
                self.children@.len() == n,
                forall|j: int| 0 <= j < n ==> (#[trigger] self.children@[j]).wf(),
                forall|j: int| i <= j < n ==> #[trigger] self.children@[j] == pre.children@[j],
                forall|j: int|
                    0 <= j < i ==> (#[trigger] self.children@[j])@ == pre.children@[j]@.add_watches(ids@),
            decreases n - i,
        {
            assert(self.children@[i as int] == pre.children@[i as int]);
            assert(pre.children@[i as int].wf());
            let ghost before = self.children@;
            self.children[i].add_watches(ids);
            proof {
                assert forall|j: int| 0 <= j < i + 1 implies (#[trigger] self.children@[j])@
                    == pre.children@[j]@.add_watches(ids@) by {
                    if j < i {
                        assert(self.children@[j] == before[j]);
                    }
                }
            }
            i += 1;
        }
        assert(self@.children =~= pre@.add_watches(ids@).children) by {
            assert forall|j: int| 0 <= j < n implies #[trigger] self@.children[j]
                == pre@.add_watches(ids@).children[j] by {
                assert(self@.children[j] == self.children@[j]@);
                assert(pre@.children[j] == pre.children@[j]@);
            }
        }
    }

    /// Puts a child before the child with number `idx`, or last. It watches what the child watches
    /// that stood there, or what this watcher watches in full. It and the children after it are
    /// told their new positions.
    pub fn insert_child(&mut self, idx: usize, child: ResourceWatcher, out: &mut Vec<Outgoing>)
        requires
            old(self).wf(),
            child.wf(),
            idx <= old(self)@.children.len(),
        ensures
            final(self).wf(),
            final(self)@ == old(self)@.with_child(idx as int, child@).reconfigure(idx as int),
            is_kept(old(out)@, final(out)@),
            messages(final(out)@) == messages(old(out)@) + old(self)@.with_child(
                idx as int,
                child@,
            ).reconfigure_msgs(idx as int),
    {
        if idx < self.children.len() {
            let ghost pre = *self;
            let watches = self.children[idx].all_watches();
            let mut child = child;
            let ghost grown = child@.add_watches(pre@.children[idx as int].all_watches());
            child.add_watches(&watches);
            self.children.insert(idx, child);
            assert(self@.children =~= pre@.children.insert(idx as int, grown));
            self.reconfigure(idx, out);
        } else {
            self.push_child(child, out);
        }
    }

    /// Puts a child last. It watches what this watcher watches in full.
    pub fn push_child(&mut self, child: ResourceWatcher, out: &mut Vec<Outgoing>)
        requires
            old(self).wf(),
            child.wf(),
        ensures
            final(self).wf(),
            final(self)@ == old(self)@.with_child(old(self)@.children.len() as int, child@).reconfigure(
                old(self)@.children.len() as int,
            ),
            is_kept(old(out)@, final(out)@),
            messages(final(out)@) == messages(old(out)@) + old(self)@.with_child(
                old(self)@.children.len() as int,
                child@,
            ).reconfigure_msgs(old(self)@.children.len() as int),
    {
        let ghost pre = *self;
        let mut child = child;
        let ghost grown = child@.add_watches(pre@.watches);
        child.add_watches(&self.watches);
        self.children.push(child);
        assert(self@.children =~= pre@.children.push(grown));
        let last: usize = self.children.len() - 1;
        self.reconfigure(last, out);
    }

    /// Takes out the child with number `idx`, unconfigured. The children after it are told their
    /// new positions.
    pub fn remove_child(&mut self, idx: usize, out: &mut Vec<Outgoing>) -> (r: ResourceWatcher)
        requires
            old(self).wf(),
            idx < old(self)@.children.len(),
        ensures
            final(self).wf(),
            r.wf(),
            r@ == old(self)@.children[idx as int].unconfigure(),
            final(self)@ == old(self)@.without_child(idx as int).reconfigure(idx as int),
            is_kept(old(out)@, final(out)@),
            messages(final(out)@) == messages(old(out)@) + old(self)@.children[idx as int].unconfigure_msgs()
                + old(self)@.without_child(idx as int).reconfigure_msgs(idx as int),
    {
        let ghost pre = *self;
        let mut child = self.children.remove(idx);
        assert(self@.children =~= pre@.children.remove(idx as int));
        assert(self@ == pre@.without_child(idx as int));
        child.unconfigure(out);
        let ghost sent = messages(out@);
        if idx < self.children.len() {
            self.reconfigure(idx, out);
        } else {
            proof {
                lemma_reconfigure_nothing(self@, idx as int);
                assert(sent + Seq::<MsgView>::empty() =~= sent);
            }
        }
        child
    }
}

/// What kind of update is collected.
enum UpdateKind {
    Moved(SourceIndex),
    Added,
    Removed,
}

impl UpdateKind {
    spec fn update(self, watcher: WatcherModel, id: ResourceId) -> UpdateView {
        match self {
            UpdateKind::Moved(src_idx) => UpdateView::MovedSourceIndex(src_idx),
            UpdateKind::Added => UpdateView::Added(watcher.hashes[id]),
            UpdateKind::Removed => UpdateView::Removed,
        }
    }
}

proof fn lemma_push_id(s: Seq<ResourceId>, x: ResourceId, y: ResourceId)
    ensures
        s.push(x).contains(y) <==> s.contains(y) || y == x,
{
    let t = s.push(x);
    if s.contains(y) {
        let i = choose|i: int| 0 <= i < s.len() && s[i] == y;
        assert(t[i] == y);
    }
    if y == x {
        assert(t[s.len() as int] == y);
    }
    if t.contains(y) {
        let i = choose|i: int| 0 <= i < t.len() && t[i] == y;
        if i < s.len() {
            assert(s[i] == y);
        }
    }
}

/// What is reported is watched and has a hash, and all of that is reported.
pub proof fn lemma_hashed(ids: Seq<ResourceId>, hashes: Map<ResourceId, Seq<char>>)
    ensures
        forall|id: ResourceId| #[trigger]
            hashed(ids, hashes).contains(id) <==> ids.contains(id) && hashes.contains_key(id),
    decreases ids.len(),
{
    if ids.len() > 0 {
        lemma_hashed(ids.drop_last(), hashes);
        assert(ids =~= ids.drop_last().push(ids.last()));
        assert forall|id: ResourceId| #[trigger] hashed(ids, hashes).contains(id) <==> ids.contains(id)
            && hashes.contains_key(id) by {
            lemma_push_id(ids.drop_last(), ids.last(), id);
            lemma_push_id(hashed(ids.drop_last(), hashes), ids.last(), id);
        }
    }
}

proof fn lemma_reconfigure_nothing(w: WatcherModel, start: int)
    requires
        start >= w.children.len(),
    ensures
        w.reconfigure(start) == w,
        w.reconfigure_msgs(start) == Seq::<MsgView>::empty(),
{
    match w.config {
        Some(config) => {
            assert(WatcherModel::configure_list(w.children, start, config) =~= w.children);
        },
        None => {},
    }
}

/// A watcher in which nothing is configured or watched, here and below.
pub open spec fn is_idle(w: WatcherModel) -> bool
    decreases w,
{
    &&& w.config.is_none()
    &&& w.watches.len() == 0
    &&& w.partial_watches.len() == 0
    &&& forall|i: int| 0 <= i < w.children.len() ==> is_idle(#[trigger] w.children[i])
}

/// Unconfiguring leaves nothing configured or watched, here and below.
pub proof fn lemma_unconfigured_is_idle(w: WatcherModel)
    ensures
        is_idle(w.unconfigure()),
    decreases w,
{
    let post = w.unconfigure();
    assert forall|i: int| 0 <= i < post.children.len() implies is_idle(#[trigger] post.children[i]) by {
        lemma_unconfigured_is_idle(w.children[i]);
    }
}

/// Whether nothing, here and below, watches `id`.
pub open spec fn ignores(w: WatcherModel, id: ResourceId) -> bool
    decreases w,
{
    &&& !w.is_watched(id)
    &&& forall|i: int| 0 <= i < w.children.len() ==> ignores(#[trigger] w.children[i], id)
}

/// Whether no list of watched identifiers, here and below, names one twice.
pub open spec fn is_proper(w: WatcherModel) -> bool
    decreases w,
{
    &&& w.watches.no_duplicates()
    &&& w.partial_watches.no_duplicates()
    &&& forall|i: int| 0 <= i < w.children.len() ==> is_proper(#[trigger] w.children[i])
}

impl ResourceWatcher {
    /// The lists of a watcher that is in order are proper.
    pub proof fn lemma_proper(&self)
        requires
            self.wf(),
        ensures
            is_proper(self@),
        decreases self,
    {
        assert forall|i: int| 0 <= i < self@.children.len() implies is_proper(#[trigger] self@.children[i]) by {
            self.children@[i].lemma_proper();
        }
    }
}

/// After an identifier is no longer to be watched, nothing watches it, here and below.
pub proof fn lemma_unwatched_is_ignored(w: WatcherModel, id: ResourceId)
    requires
        is_proper(w),
    ensures
        ignores(w.unwatch(id), id),
    decreases w,
{
    lemma_seq_without(w.watches, id);
    lemma_seq_without(w.partial_watches, id);
    let post = w.unwatch(id);
    assert forall|i: int| 0 <= i < post.children.len() implies ignores(#[trigger] post.children[i], id) by {
        assert(is_proper(w.children[i]));
        lemma_unwatched_is_ignored(w.children[i], id);
    }
}

/// Whether everything, here and below, watches `id`.
pub open spec fn attends(w: WatcherModel, id: ResourceId) -> bool
    decreases w,
{
    &&& w.watches.contains(id)
    &&& forall|i: int| 0 <= i < w.children.len() ==> attends(#[trigger] w.children[i], id)
}

/// An identifier that is watched without a limit is watched by everything, here and below.
pub proof fn lemma_watched_is_attended(w: WatcherModel, id: ResourceId)
    requires
        is_proper(w),
        widths_fit(w),
    ensures
        attends(w.watch(id, None), id),
    decreases w,
{
    lemma_seq_with(w.watches, id);
    let post = w.watch(id, None);
    assert forall|i: int| 0 <= i < post.children.len() implies attends(#[trigger] post.children[i], id) by {
        assert(is_proper(w.children[i]) && widths_fit(w.children[i]));
        lemma_watched_is_attended(w.children[i], id);
        assert(post.children[i] == w.children[i].watch(id, None));
    }
}

/// The numbers of all children, here and below, fit a machine word.
pub open spec fn widths_fit(w: WatcherModel) -> bool
    decreases w,
{
    &&& w.children.len() <= usize::MAX
    &&& forall|i: int| 0 <= i < w.children.len() ==> widths_fit(#[trigger] w.children[i])
}

/// A limited watch reaches exactly the children up to the limit; those beyond it ignore the
/// identifier.
pub proof fn lemma_watch_limit(w: WatcherModel, id: ResourceId, limit: SourceIndex, i: int)
    requires
        is_proper(w),
        0 <= i < w.children.len(),
    ensures
        i <= limit.idx ==> w.watch(id, Some(limit)).children[i] == w.children[i].watch(id, limit.below())
            && w.watch(id, Some(limit)).children[i].is_watched(id),
        i > limit.idx ==> ignores(w.watch(id, Some(limit)).children[i], id),
{
    assert(is_proper(w.children[i]));
    lemma_seq_with(w.children[i].watches, id);
    lemma_seq_with(w.children[i].partial_watches, id);
    lemma_unwatched_is_ignored(w.children[i], id);
}

/// Whether the children, and what is below them, report from the positions that they have.
pub open spec fn is_placed(w: WatcherModel) -> bool
    decreases w,
{
    match w.config {
        Some(config) => forall|i: int|
            0 <= i < w.children.len() ==> (#[trigger] w.children[i]).config == Some(config.child(i as usize))
                && is_placed(w.children[i]),
        None => true,
    }
}

/// A configured watcher's children report from the positions that they have.
pub proof fn lemma_configured_is_placed(w: WatcherModel, config: ResourceWatcherConfig)
    ensures
        is_placed(w.configure(config, 0)),
    decreases w,
{
    let post = w.configure(config, 0);
    assert forall|i: int| 0 <= i < post.children.len() implies (#[trigger] post.children[i]).config == Some(
        config.child(i as usize),
    ) && is_placed(post.children[i]) by {
        assert(post.children[i] == w.children[i].configure(config.child(i as usize), 0));
        lemma_configured_is_placed(w.children[i], config.child(i as usize));
    }
}

/// The watcher that is reached from `w` by going down to the children with the given numbers, one
/// after the other, if there is one.
pub open spec fn at_path(w: WatcherModel, path: Seq<usize>) -> Option<WatcherModel>
    decreases path.len(),
{
    if path.len() == 0 {
        Some(w)
    } else if path[0] < w.children.len() {
        at_path(w.children[path[0] as int], path.drop_first())
    } else {
        None
    }
}

/// However deep a watcher is nested, it reports from the position that names it: the numbers of its
/// root, followed by the numbers of the children through which it is reached.
pub proof fn lemma_position_is_path(w: WatcherModel, root: Seq<usize>, path: Seq<usize>)
    requires
        is_placed(w),
        w.config.is_some(),
        root.len() > 0,
        w.config.unwrap().src_idx == SourceIndex::nested(root),
        at_path(w, path).is_some(),
    ensures
        at_path(w, path).unwrap().config == Some(
            ResourceWatcherConfig {
                src_idx: SourceIndex::nested(root + path),
                sender: w.config.unwrap().sender,
            },
        ),
    decreases path.len(),
{
    if path.len() == 0 {
        assert(root + path =~= root);
    } else {
        let child = w.children[path[0] as int];
        assert(child.config == Some(w.config.unwrap().child(path[0])));
        crate::resource::source::lemma_append_nested(root, path[0]);
        lemma_position_is_path(child, root.push(path[0]), path.drop_first());
        assert(root.push(path[0]) + path.drop_first() =~= root + path);
    }
}

/// Adding a child keeps all children reporting from the positions that they have.
pub proof fn lemma_insert_keeps_placed(w: WatcherModel, idx: int, child: WatcherModel)
    requires
        is_placed(w),
        0 <= idx <= w.children.len(),
    ensures
        is_placed(w.with_child(idx, child).reconfigure(idx)),
{
    let grown = w.with_child(idx, child);
    lemma_replaced_is_placed(grown, idx, w);
}

/// Removing a child keeps all children reporting from the positions that they have.
pub proof fn lemma_remove_keeps_placed(w: WatcherModel, idx: int)
    requires
        is_placed(w),
        0 <= idx < w.children.len(),
    ensures
        is_placed(w.without_child(idx).reconfigure(idx)),
{
    lemma_replaced_is_placed(w.without_child(idx), idx, w);
}

proof fn lemma_replaced_is_placed(w: WatcherModel, start: int, before: WatcherModel)
    requires
        is_placed(before),
        w.config == before.config,
        0 <= start <= w.children.len(),
        start <= before.children.len(),
        forall|i: int| 0 <= i < start ==> w.children[i] == before.children[i],
    ensures
        is_placed(w.reconfigure(start)),
{
    match w.config {
        Some(config) => {
            let post = w.reconfigure(start);
            assert forall|i: int| 0 <= i < post.children.len() implies (#[trigger] post.children[i]).config == Some(
                config.child(i as usize),
            ) && is_placed(post.children[i]) by {
                if i < start {
                    assert(post.children[i] == before.children[i]);
                } else {
                    assert(post.children[i] == w.children[i].configure(config.child(i as usize), 0));
                    lemma_configured_is_placed(w.children[i], config.child(i as usize));
                }
            }
        },
        None => {},
    }
}

/// Unconfiguring a watcher in which nothing is configured or watched reports nothing.
pub proof fn lemma_unconfigured_is_silent(w: WatcherModel)
    requires
        is_idle(w),
    ensures
        w.unconfigure_msgs() == Seq::<MsgView>::empty(),
    decreases w,
{
    lemma_unconfigured_list_is_silent(w.children, w.children.len());
}

proof fn lemma_unconfigured_list_is_silent(children: Seq<WatcherModel>, end: nat)
    requires
        end <= children.len(),
        forall|i: int| 0 <= i < children.len() ==> is_idle(#[trigger] children[i]),
    ensures
        WatcherModel::unconfigure_list_msgs(children, end) == Seq::<MsgView>::empty(),
    decreases children, end,
{
    if end > 0 {
        lemma_unconfigured_list_is_silent(children, (end - 1) as nat);
        assert(is_idle(children[end - 1]));
        lemma_unconfigured_is_silent(children[end - 1]);
    }
}

/// Exactly what is watched, in full or in part, and has a hash is reported, each identifier once.
pub proof fn lemma_watched_is_reported(w: WatcherModel, id: ResourceId)
    requires
        w.watches.no_duplicates(),
    ensures
        w.is_watched(id) <==> w.watches.contains(id) || w.partial_watches.contains(id),
        w.all_watches().contains(id) <==> w.watches.contains(id) || w.partial_watches.contains(id),
        w.reported().contains(id) <==> (w.watches.contains(id) || w.partial_watches.contains(id))
            && w.hashes.contains_key(id),
        w.reported().no_duplicates(),
{
    lemma_seq_with_all(w.watches, w.partial_watches);
    lemma_hashed(w.all_watches(), w.hashes);
    lemma_hashed_once(w.all_watches(), w.hashes);
}

proof fn lemma_hashed_once(ids: Seq<ResourceId>, hashes: Map<ResourceId, Seq<char>>)
    requires
        ids.no_duplicates(),
    ensures
        hashed(ids, hashes).no_duplicates(),
    decreases ids.len(),
{
    if ids.len() > 0 {
        let rest = ids.drop_last();
        lemma_hashed_once(rest, hashes);
        lemma_hashed(rest, hashes);
        let before = hashed(rest, hashes);
        assert(!before.contains(ids.last())) by {
            if before.contains(ids.last()) {
                assert(rest.contains(ids.last()));
                let i = choose|i: int| 0 <= i < rest.len() && rest[i] == ids.last();
                assert(ids[i] == ids[ids.len() - 1]);
            }
        }
        lemma_seq_with(before, ids.last());
    }
}

/// Identifiers are reported in the order in which they are listed.
pub proof fn lemma_reported_in_order(
    a: Seq<ResourceId>,
    b: Seq<ResourceId>,
    hashes: Map<ResourceId, Seq<char>>,
    id: ResourceId,
)
    ensures
        hashed(a + b, hashes) == hashed(a, hashes) + hashed(b, hashes),
        hashes.contains_key(id) ==> hashed(seq![id], hashes) == seq![id],
        !hashes.contains_key(id) ==> hashed(seq![id], hashes).len() == 0,
    decreases b.len(),
{
    let one = seq![id];
    assert(one.drop_last() =~= Seq::<ResourceId>::empty());
    assert(hashed(one.drop_last(), hashes) =~= Seq::<ResourceId>::empty());
    assert(one.last() == id);
    assert(Seq::<ResourceId>::empty().push(id) =~= one);
    if b.len() == 0 {
        assert(a + b =~= a);
        assert(hashed(a, hashes) + hashed(b, hashes) =~= hashed(a, hashes));
    } else {
        lemma_reported_in_order(a, b.drop_last(), hashes, id);
        assert((a + b).drop_last() =~= a + b.drop_last());
        assert(hashed(a + b, hashes) =~= hashed(a, hashes) + hashed(b, hashes));
    }
}

/// Whether a child is reached under a limit: at each level its number does not exceed the number that
/// the limit has there, and a limit that has no number there sets none.
pub open spec fn is_within(path: Seq<usize>, limit: Seq<usize>) -> bool {
    forall|j: int|
        #![trigger path[j]]
        0 <= j < path.len() && j < limit.len() ==> path[j] <= limit[j]
}

/// The position that nested numbers name; none, if there are no numbers.
pub open spec fn position_of(numbers: Seq<usize>) -> Option<SourceIndex> {
    if numbers.len() == 0 {
        None
    } else {
        Some(SourceIndex::nested(numbers))
    }
}

/// What unwatching leaves at each place of a hierarchy: the identifier is not watched there any more,
/// and everything else stays.
pub proof fn lemma_unwatch_at_path(w: WatcherModel, id: ResourceId, path: Seq<usize>, other: ResourceId)
    requires
        is_proper(w),
        at_path(w, path).is_some(),
    ensures
        ({
            let before = at_path(w, path).unwrap();
            at_path(w.unwatch(id), path) matches Some(after) && {
                &&& !after.watches.contains(id)
                &&& !after.partial_watches.contains(id)
                &&& other != id ==> after.watches.contains(other) == before.watches.contains(other)
                &&& other != id ==> after.partial_watches.contains(other) == before.partial_watches.contains(other)
                &&& after.config == before.config
                &&& after.hashes == before.hashes
                &&& after.children.len() == before.children.len()
            }
        }),
    decreases path.len(),
{
    if path.len() == 0 {
        lemma_seq_without(w.watches, id);
        lemma_seq_without(w.partial_watches, id);
    } else {
        let i = path[0] as int;
        assert(is_proper(w.children[i]));
        lemma_unwatch_at_path(w.children[i], id, path.drop_first(), other);
        assert(w.unwatch(id).children[i] == w.children[i].unwatch(id));
    }
}

/// What watching leaves at each place of a hierarchy. Where the limit reaches, the identifier is
/// watched: in part where the limit still has a number for the children, and in full where it has
/// none. Where the limit does not reach, the identifier is not watched any more. Everything else
/// stays.
pub proof fn lemma_watch_at_path(
    w: WatcherModel,
    id: ResourceId,
    limit: Seq<usize>,
    path: Seq<usize>,
    other: ResourceId,
)
    requires
        is_proper(w),
        widths_fit(w),
        at_path(w, path).is_some(),
    ensures
        ({
            let before = at_path(w, path).unwrap();
            at_path(w.watch(id, position_of(limit)), path) matches Some(after) && {
                &&& is_within(path, limit) && path.len() < limit.len() ==> after.partial_watches.contains(id)
                    && after.watches == before.watches
                &&& is_within(path, limit) && path.len() >= limit.len() ==> after.watches.contains(id)
                    && after.partial_watches == before.partial_watches
                &&& !is_within(path, limit) ==> !after.watches.contains(id) && !after.partial_watches.contains(id)
                &&& other != id ==> after.watches.contains(other) == before.watches.contains(other)
                &&& other != id ==> after.partial_watches.contains(other) == before.partial_watches.contains(other)
                &&& after.config == before.config
                &&& after.hashes == before.hashes
                &&& after.children.len() == before.children.len()
            }
        }),
    decreases path.len(),
{
    let sub_idx = position_of(limit);
    let post = w.watch(id, sub_idx);
    if path.len() == 0 {
        lemma_seq_with(w.watches, id);
        lemma_seq_with(w.partial_watches, id);
    } else {
        let i = path[0] as int;
        let rest = path.drop_first();
        assert(is_proper(w.children[i]) && widths_fit(w.children[i]));
        if limit.len() == 0 {
            assert(post.children[i] == w.children[i].watch(id, None));
            lemma_watch_at_path(w.children[i], id, limit, rest, other);
        } else {
            let inner = limit.drop_first();
            assert(SourceIndex::nested(limit).idx == limit[0]);
            assert(SourceIndex::nested(limit).below() == position_of(inner));
            if path[0] <= limit[0] {
                assert(post.children[i] == w.children[i].watch(id, position_of(inner)));
                lemma_watch_at_path(w.children[i], id, inner, rest, other);
                if is_within(rest, inner) {
                    assert forall|j: int|
                        #![trigger path[j]]
                        0 <= j < path.len() && j < limit.len() implies path[j] <= limit[j] by {
                        if j > 0 {
                            assert(rest[j - 1] <= inner[j - 1]);
                        }
                    }
                }
                if is_within(path, limit) {
                    assert forall|j: int|
                        #![trigger rest[j]]
                        0 <= j < rest.len() && j < inner.len() implies rest[j] <= inner[j] by {
                        assert(path[j + 1] <= limit[j + 1]);
                    }
                }
            } else {
                assert(post.children[i] == w.children[i].unwatch(id));
                lemma_unwatch_at_path(w.children[i], id, rest, other);
                assert(!is_within(path, limit)) by {
                    assert(path[0] > limit[0]);
                }
            }
        }
    }
}

/// What adding watches leaves at each place of a hierarchy: everything that was watched and
/// everything that was added is watched in full there.
pub proof fn lemma_added_watches_at_path(w: WatcherModel, ids: Seq<ResourceId>, path: Seq<usize>, id: ResourceId)
    requires
        is_proper(w),
        at_path(w, path).is_some(),
    ensures
        ({
            let before = at_path(w, path).unwrap();
            at_path(w.add_watches(ids), path) matches Some(after) && {
                &&& after.watches.contains(id) <==> before.watches.contains(id) || ids.contains(id)
                &&& after.partial_watches == before.partial_watches
                &&& after.config == before.config
                &&& after.hashes == before.hashes
                &&& after.children.len() == before.children.len()
            }
        }),
    decreases path.len(),
{
    if path.len() == 0 {
        lemma_seq_with_all(w.watches, ids);
    } else {
        let i = path[0] as int;
        assert(is_proper(w.children[i]));
        lemma_added_watches_at_path(w.children[i], ids, path.drop_first(), id);
        assert(w.add_watches(ids).children[i] == w.children[i].add_watches(ids));
    }
}

/// A new child stands at its number and the others stay in their order around it. It watches, with
/// everything below it, whatever is watched by the child that it is put in front of, or, if it comes
/// last, whatever the parent watches in full.
pub proof fn lemma_new_child_takes_over(
    w: WatcherModel,
    idx: int,
    child: WatcherModel,
    path: Seq<usize>,
    id: ResourceId,
    i: int,
)
    requires
        is_proper(w),
        is_proper(child),
        0 <= idx <= w.children.len(),
        at_path(child, path).is_some(),
        0 <= i < w.children.len(),
    ensures
        ({
            let after = w.with_child(idx, child);
            let wanted = if idx < w.children.len() {
                w.children[idx].watches.contains(id) || w.children[idx].partial_watches.contains(id)
            } else {
                w.watches.contains(id)
            };
            &&& after.children.len() == w.children.len() + 1
            &&& i < idx ==> after.children[i] == w.children[i]
            &&& i >= idx ==> after.children[i + 1] == w.children[i]
            &&& after.config == w.config && after.hashes == w.hashes && after.watches == w.watches
                && after.partial_watches == w.partial_watches
            &&& at_path(after.children[idx], path) matches Some(x) && {
                &&& x.watches.contains(id) <==> at_path(child, path).unwrap().watches.contains(id) || wanted
                &&& x.partial_watches == at_path(child, path).unwrap().partial_watches
            }
        }),
{
    if idx < w.children.len() {
        assert(is_proper(w.children[idx]));
        lemma_watched_is_reported(w.children[idx], id);
        lemma_added_watches_at_path(child, w.children[idx].all_watches(), path, id);
    } else {
        lemma_added_watches_at_path(child, w.watches, path, id);
    }
}

/// A child that is taken out leaves the others in their order.
pub proof fn lemma_removed_child_is_gone(w: WatcherModel, idx: int, i: int)
    requires
        0 <= idx < w.children.len(),
        0 <= i < w.children.len(),
        i != idx,
    ensures
        ({
            let after = w.without_child(idx);
            &&& after.children.len() == w.children.len() - 1
            &&& i < idx ==> after.children[i] == w.children[i]
            &&& i > idx ==> after.children[i - 1] == w.children[i]
            &&& after.config == w.config && after.hashes == w.hashes && after.watches == w.watches
                && after.partial_watches == w.partial_watches
        }),
{
}

/// Configuring changes nothing but where watchers report to, and reconfiguring reaches the children
/// from the given number on and no others; a watcher that is not configured has none reconfigured.
pub proof fn lemma_configuring_keeps_watches(
    w: WatcherModel,
    config: ResourceWatcherConfig,
    start: int,
    path: Seq<usize>,
)
    requires
        at_path(w, path).is_some(),
    ensures
        ({
            let before = at_path(w, path).unwrap();
            &&& at_path(w.configure(config, start), path) matches Some(after) && {
                &&& after.watches == before.watches
                &&& after.partial_watches == before.partial_watches
                &&& after.hashes == before.hashes
                &&& after.children.len() == before.children.len()
                &&& path.len() == 0 ==> after.config == Some(config)
                &&& path.len() > 0 && path[0] < start ==> after == before
            }
            &&& at_path(w.reconfigure(start), path) matches Some(after) && {
                &&& after.watches == before.watches
                &&& after.partial_watches == before.partial_watches
                &&& after.hashes == before.hashes
                &&& after.children.len() == before.children.len()
                &&& path.len() == 0 ==> after.config == before.config
                &&& path.len() > 0 && path[0] < start ==> after == before
                &&& w.config is None ==> after == before
            }
        }),
    decreases path.len(),
{
    if path.len() > 0 {
        let i = path[0] as int;
        let rest = path.drop_first();
        let post = w.configure(config, start);
        if start <= i {
            lemma_configuring_keeps_watches(w.children[i], config.child(i as usize), 0, rest);
            assert(post.children[i] == w.children[i].configure(config.child(i as usize), 0));
            if let Some(own) = w.config {
                lemma_configuring_keeps_watches(w.children[i], own.child(i as usize), 0, rest);
                assert(w.reconfigure(start).children[i] == w.children[i].configure(own.child(i as usize), 0));
            }
        } else {
            assert(post.children[i] == w.children[i]);
            assert(w.reconfigure(start).children[i] == w.children[i]);
        }
    }
}

/// Unconfiguring keeps the hashes and the shape of a hierarchy, and leaves nothing configured or
/// watched at any place.
pub proof fn lemma_unconfigure_at_path(w: WatcherModel, path: Seq<usize>)
    requires
        at_path(w, path).is_some(),
    ensures
        ({
            let before = at_path(w, path).unwrap();
            at_path(w.unconfigure(), path) matches Some(after) && {
                &&& after.config is None
                &&& after.watches.len() == 0
                &&& after.partial_watches.len() == 0
                &&& after.hashes == before.hashes
                &&& after.children.len() == before.children.len()
            }
        }),
    decreases path.len(),
{
    if path.len() > 0 {
        let i = path[0] as int;
        lemma_unconfigure_at_path(w.children[i], path.drop_first());
        assert(w.unconfigure().children[i] == w.children[i].unconfigure());
    }
}

/// Whether a message tells, as of one source, exactly what is watched there and has a hash: that it
/// was added, with its hash, if the source was not configured before, and otherwise that it has moved
/// from the position that the source had.
pub open spec fn announces(m: MsgView, w: WatcherModel, sender: ResourceWatcherSender, src_idx: SourceIndex) -> bool {
    &&& m.sender == sender
    &&& m.src_idx == src_idx
    &&& m.order.no_duplicates()
    &&& forall|id: ResourceId| #[trigger] m.order.contains(id) <==> m.updates.contains_key(id)
    &&& forall|id: ResourceId| #[trigger]
        m.updates.contains_key(id) <==> (w.watches.contains(id) || w.partial_watches.contains(id))
            && w.hashes.contains_key(id)
    &&& forall|id: ResourceId| #[trigger]
        m.updates.contains_key(id) ==> m.updates[id] == (match w.config {
            Some(former) => UpdateView::MovedSourceIndex(former.src_idx),
            None => UpdateView::Added(w.hashes[id]),
        })
}

/// Whether a message tells, as of one source, that exactly what is watched there and has a hash is
/// gone.
pub open spec fn withdraws(m: MsgView, w: WatcherModel) -> bool {
    &&& w.config == Some(ResourceWatcherConfig { src_idx: m.src_idx, sender: m.sender })
    &&& m.order.no_duplicates()
    &&& forall|id: ResourceId| #[trigger] m.order.contains(id) <==> m.updates.contains_key(id)
    &&& forall|id: ResourceId| #[trigger]
        m.updates.contains_key(id) <==> (w.watches.contains(id) || w.partial_watches.contains(id))
            && w.hashes.contains_key(id)
    &&& forall|id: ResourceId| #[trigger] m.updates.contains_key(id) ==> m.updates[id] is Removed
}

proof fn lemma_msgs_concat(a: Seq<MsgView>, b: Seq<MsgView>, m: MsgView)
    ensures
        (a + b).contains(m) <==> a.contains(m) || b.contains(m),
{
    let c = a + b;
    if a.contains(m) {
        let i = choose|i: int| 0 <= i < a.len() && a[i] == m;
        assert(c[i] == m);
    }
    if b.contains(m) {
        let i = choose|i: int| 0 <= i < b.len() && b[i] == m;
        assert(c[a.len() + i] == m);
    }
    if c.contains(m) {
        let i = choose|i: int| 0 <= i < c.len() && c[i] == m;
        if i < a.len() {
            assert(a[i] == m);
        } else {
            assert(b[i - a.len()] == m);
        }
    }
}

proof fn lemma_list_announces(
    children: Seq<WatcherModel>,
    start: int,
    config: ResourceWatcherConfig,
    end: nat,
    m: MsgView,
)
    requires
        0 <= start,
        end <= children.len(),
    ensures
        WatcherModel::configure_list_msgs(children, start, config, end).contains(m) <==> exists|i: int|
            start <= i < end && (#[trigger] children[i]).configure_msgs(config.child(i as usize), 0).contains(m),
    decreases end,
{
    if end > start {
        let rest = (end - 1) as nat;
        lemma_list_announces(children, start, config, rest, m);
        lemma_msgs_concat(
            WatcherModel::configure_list_msgs(children, start, config, rest),
            children[end - 1].configure_msgs(config.child((end - 1) as usize), 0),
            m,
        );
        assert(children[end - 1] == children[end - 1]);
    }
}

proof fn lemma_own_announcement(w: WatcherModel, sender: ResourceWatcherSender, src_idx: SourceIndex)
    requires
        is_proper(w),
    ensures
        ({
            let config = ResourceWatcherConfig { src_idx, sender };
            let own = report(Some(config), w.reported(), |id: ResourceId| w.on_configure(id));
            &&& own.len() <= 1
            &&& own.len() == 1 ==> announces(own[0], w, sender, src_idx)
            &&& own.len() == 0 <==> forall|id: ResourceId|
                !(#[trigger] w.is_watched(id) && w.hashes.contains_key(id))
        }),
{
    let config = ResourceWatcherConfig { src_idx, sender };
    let ids = w.reported();
    let own = report(Some(config), ids, |id: ResourceId| w.on_configure(id));
    assert forall|id: ResourceId| #[trigger] ids.contains(id) <==> (w.watches.contains(id)
        || w.partial_watches.contains(id)) && w.hashes.contains_key(id) by {
        lemma_watched_is_reported(w, id);
    }
    lemma_watched_is_reported(w, ids[0]);
    if ids.len() > 0 {
        assert(ids.contains(ids[0]));
        assert(w.is_watched(ids[0]) && w.hashes.contains_key(ids[0]));
        let m = own[0];
        assert forall|id: ResourceId| #[trigger] m.updates.contains_key(id) <==> ids.contains(id) by {}
    } else {
        assert forall|id: ResourceId| !(#[trigger] w.is_watched(id) && w.hashes.contains_key(id)) by {
            assert(ids.contains(id) <==> (w.watches.contains(id) || w.partial_watches.contains(id))
                && w.hashes.contains_key(id));
        }
    }
}

/// Configuring a hierarchy announces every source in it, however deep, in which something is watched
/// that has a hash: under the position that names it, and to where the hierarchy reports.
pub proof fn lemma_every_source_is_announced(
    w: WatcherModel,
    sender: ResourceWatcherSender,
    root: Seq<usize>,
    path: Seq<usize>,
    id: ResourceId,
)
    requires
        is_proper(w),
        widths_fit(w),
        root.len() > 0,
        at_path(w, path).is_some(),
        at_path(w, path).unwrap().watches.contains(id) || at_path(w, path).unwrap().partial_watches.contains(id),
        at_path(w, path).unwrap().hashes.contains_key(id),
    ensures
        exists|m: MsgView| #[trigger]
            w.configure_msgs(ResourceWatcherConfig { src_idx: SourceIndex::nested(root), sender }, 0).contains(m)
                && announces(m, at_path(w, path).unwrap(), sender, SourceIndex::nested(root + path)),
    decreases path.len(),
{
    let config = ResourceWatcherConfig { src_idx: SourceIndex::nested(root), sender };
    let own = report(Some(config), w.reported(), |id: ResourceId| w.on_configure(id));
    let below = WatcherModel::configure_list_msgs(w.children, 0, config, w.children.len());
    if path.len() == 0 {
        lemma_own_announcement(w, sender, config.src_idx);
        assert(w.is_watched(id));
        let m = own[0];
        assert(own.contains(m));
        lemma_msgs_concat(own, below, m);
        assert(root + path =~= root);
        assert(w.configure_msgs(config, 0).contains(m));
        assert(announces(m, w, sender, SourceIndex::nested(root + path)));
    } else {
        let i = path[0] as int;
        let rest = path.drop_first();
        assert(is_proper(w.children[i]) && widths_fit(w.children[i]));
        crate::resource::source::lemma_append_nested(root, path[0]);
        lemma_every_source_is_announced(w.children[i], sender, root.push(path[0]), rest, id);
        assert(root.push(path[0]) + rest =~= root + path);
        let m = choose|m: MsgView| #[trigger]
            w.children[i].configure_msgs(
                ResourceWatcherConfig { src_idx: SourceIndex::nested(root.push(path[0])), sender },
                0,
            ).contains(m) && announces(
                m,
                at_path(w.children[i], rest).unwrap(),
                sender,
                SourceIndex::nested(root.push(path[0]) + rest),
            );
        assert(config.child(i as usize) == (ResourceWatcherConfig {
            src_idx: SourceIndex::nested(root.push(path[0])),
            sender,
        }));
        assert(w.children[i].configure_msgs(config.child(i as usize), 0).contains(m));
        lemma_list_announces(w.children, 0, config, w.children.len(), m);
        lemma_msgs_concat(own, below, m);
        assert(w.configure_msgs(config, 0).contains(m));
        assert(announces(m, at_path(w, path).unwrap(), sender, SourceIndex::nested(root + path)));
    }
}

/// Whatever configuring a hierarchy announces is announced of a source in it, under the position that
/// names it.
pub proof fn lemma_only_sources_are_announced(
    w: WatcherModel,
    sender: ResourceWatcherSender,
    root: Seq<usize>,
    m: MsgView,
)
    requires
        is_proper(w),
        widths_fit(w),
        root.len() > 0,
        w.configure_msgs(ResourceWatcherConfig { src_idx: SourceIndex::nested(root), sender }, 0).contains(m),
    ensures
        exists|path: Seq<usize>|
            (#[trigger] at_path(w, path)).is_some() && announces(
                m,
                at_path(w, path).unwrap(),
                sender,
                SourceIndex::nested(root + path),
            ),
    decreases w,
{
    let config = ResourceWatcherConfig { src_idx: SourceIndex::nested(root), sender };
    let own = report(Some(config), w.reported(), |id: ResourceId| w.on_configure(id));
    let below = WatcherModel::configure_list_msgs(w.children, 0, config, w.children.len());
    lemma_msgs_concat(own, below, m);
    if own.contains(m) {
        lemma_own_announcement(w, sender, config.src_idx);
        let path = Seq::<usize>::empty();
        assert(root + path =~= root);
        assert(at_path(w, path) == Some(w));
    } else {
        lemma_list_announces(w.children, 0, config, w.children.len(), m);
        let i = choose|i: int|
            0 <= i < w.children.len() && (#[trigger] w.children[i]).configure_msgs(
                config.child(i as usize),
                0,
            ).contains(m);
        assert(is_proper(w.children[i]) && widths_fit(w.children[i]));
        crate::resource::source::lemma_append_nested(root, i as usize);
        assert(config.child(i as usize) == (ResourceWatcherConfig {
            src_idx: SourceIndex::nested(root.push(i as usize)),
            sender,
        }));
        lemma_only_sources_are_announced(w.children[i], sender, root.push(i as usize), m);
        let rest = choose|path: Seq<usize>|
            (#[trigger] at_path(w.children[i], path)).is_some() && announces(
                m,
                at_path(w.children[i], path).unwrap(),
                sender,
                SourceIndex::nested(root.push(i as usize) + path),
            );
        let path = seq![i as usize] + rest;
        assert(path.drop_first() =~= rest);
        assert(at_path(w, path) == at_path(w.children[i], rest));
        assert(root.push(i as usize) + rest =~= root + path);
    }
}

/// Reconfiguring announces the children from the given number on, as configuring each of them would.
pub proof fn lemma_reconfiguring_announces(w: WatcherModel, start: int, m: MsgView)
    requires
        0 <= start,
    ensures
        w.config matches Some(config) ==> (w.reconfigure_msgs(start).contains(m) <==> exists|i: int|
            start <= i < w.children.len() && (#[trigger] w.children[i]).configure_msgs(
                config.below(SourceIndex::nested(seq![i as usize])),
                0,
            ).contains(m)),
        w.config is None ==> w.reconfigure_msgs(start).len() == 0,
{
    if let Some(config) = w.config {
        lemma_list_announces(w.children, start, config, w.children.len(), m);
        assert forall|i: int|
            #![trigger w.children[i]]
            start <= i < w.children.len() implies config.below(SourceIndex::nested(seq![i as usize]))
            == config.child(i as usize) by {}
        if exists|i: int|
            start <= i < w.children.len() && (#[trigger] w.children[i]).configure_msgs(
                config.child(i as usize),
                0,
            ).contains(m) {
            let i = choose|i: int|
                start <= i < w.children.len() && (#[trigger] w.children[i]).configure_msgs(
                    config.child(i as usize),
                    0,
                ).contains(m);
            assert(w.children[i].configure_msgs(config.below(SourceIndex::nested(seq![i as usize])), 0).contains(m));
        }
    }
}

/// Unconfiguring several watchers withdraws what unconfiguring each of them would, and nothing else.
pub proof fn lemma_list_withdraws(children: Seq<WatcherModel>, end: nat, m: MsgView)
    requires
        end <= children.len(),
    ensures
        WatcherModel::unconfigure_list_msgs(children, end).contains(m) <==> exists|i: int|
            0 <= i < end && (#[trigger] children[i]).unconfigure_msgs().contains(m),
    decreases end,
{
    if end > 0 {
        let rest = (end - 1) as nat;
        lemma_list_withdraws(children, rest, m);
        lemma_msgs_concat(
            WatcherModel::unconfigure_list_msgs(children, rest),
            children[end - 1].unconfigure_msgs(),
            m,
        );
        assert(children[end - 1] == children[end - 1]);
    }
}

proof fn lemma_own_withdrawal(w: WatcherModel)
    requires
        is_proper(w),
    ensures
        ({
            let own = report(w.config, w.reported(), |id: ResourceId| UpdateView::Removed);
            &&& own.len() <= 1
            &&& own.len() == 1 ==> withdraws(own[0], w)
            &&& own.len() == 0 <==> w.config is None || forall|id: ResourceId|
                !(#[trigger] w.is_watched(id) && w.hashes.contains_key(id))
        }),
{
    let ids = w.reported();
    let own = report(w.config, ids, |id: ResourceId| UpdateView::Removed);
    assert forall|id: ResourceId| #[trigger] ids.contains(id) <==> (w.watches.contains(id)
        || w.partial_watches.contains(id)) && w.hashes.contains_key(id) by {
        lemma_watched_is_reported(w, id);
    }
    lemma_watched_is_reported(w, ids[0]);
    if ids.len() > 0 {
        assert(ids.contains(ids[0]));
        assert(w.is_watched(ids[0]) && w.hashes.contains_key(ids[0]));
        if w.config is Some {
            let m = own[0];
            assert forall|id: ResourceId| #[trigger] m.updates.contains_key(id) <==> ids.contains(id) by {}
        }
    } else {
        assert forall|id: ResourceId| !(#[trigger] w.is_watched(id) && w.hashes.contains_key(id)) by {
            assert(ids.contains(id) <==> (w.watches.contains(id) || w.partial_watches.contains(id))
                && w.hashes.contains_key(id));
        }
    }
}

/// Unconfiguring a hierarchy withdraws every configured source in it, however deep, in which something
/// is watched that has a hash, under the position and to the destination that it has.
pub proof fn lemma_every_source_is_withdrawn(w: WatcherModel, path: Seq<usize>, id: ResourceId)
    requires
        is_proper(w),
        at_path(w, path).is_some(),
        at_path(w, path).unwrap().config is Some,
        at_path(w, path).unwrap().watches.contains(id) || at_path(w, path).unwrap().partial_watches.contains(id),
        at_path(w, path).unwrap().hashes.contains_key(id),
    ensures
        exists|m: MsgView| #[trigger]
            w.unconfigure_msgs().contains(m) && withdraws(m, at_path(w, path).unwrap()),
    decreases path.len(),
{
    let own = report(w.config, w.reported(), |id: ResourceId| UpdateView::Removed);
    let below = WatcherModel::unconfigure_list_msgs(w.children, w.children.len());
    if path.len() == 0 {
        lemma_own_withdrawal(w);
        assert(w.is_watched(id));
        let m = own[0];
        assert(own.contains(m));
        lemma_msgs_concat(own, below, m);
        assert(w.unconfigure_msgs().contains(m));
        assert(withdraws(m, w));
    } else {
        let i = path[0] as int;
        assert(is_proper(w.children[i]));
        lemma_every_source_is_withdrawn(w.children[i], path.drop_first(), id);
        let m = choose|m: MsgView| #[trigger]
            w.children[i].unconfigure_msgs().contains(m) && withdraws(
                m,
                at_path(w.children[i], path.drop_first()).unwrap(),
            );
        lemma_list_withdraws(w.children, w.children.len(), m);
        lemma_msgs_concat(own, below, m);
        assert(w.unconfigure_msgs().contains(m));
        assert(withdraws(m, at_path(w, path).unwrap()));
    }
}

/// Whatever unconfiguring a hierarchy withdraws is withdrawn of a source in it.
pub proof fn lemma_only_sources_are_withdrawn(w: WatcherModel, m: MsgView)
    requires
        is_proper(w),
        widths_fit(w),
        w.unconfigure_msgs().contains(m),
    ensures
        exists|path: Seq<usize>|
            (#[trigger] at_path(w, path)).is_some() && withdraws(m, at_path(w, path).unwrap()),
    decreases w,
{
    let own = report(w.config, w.reported(), |id: ResourceId| UpdateView::Removed);
    let below = WatcherModel::unconfigure_list_msgs(w.children, w.children.len());
    lemma_msgs_concat(own, below, m);
    if own.contains(m) {
        lemma_own_withdrawal(w);
        assert(at_path(w, Seq::<usize>::empty()) == Some(w));
    } else {
        lemma_list_withdraws(w.children, w.children.len(), m);
        let i = choose|i: int| 0 <= i < w.children.len() && (#[trigger] w.children[i]).unconfigure_msgs().contains(m);
        assert(is_proper(w.children[i]) && widths_fit(w.children[i]));
        lemma_only_sources_are_withdrawn(w.children[i], m);
        let rest = choose|path: Seq<usize>|
            (#[trigger] at_path(w.children[i], path)).is_some() && withdraws(m, at_path(w.children[i], path).unwrap());
        let path = seq![i as usize] + rest;
        assert(path.drop_first() =~= rest);
        assert(at_path(w, path) == at_path(w.children[i], rest));
    }
}

/// A source is announced before the sources below it, and the children one after the other.
pub proof fn lemma_announced_in_order(
    w: WatcherModel,
    config: ResourceWatcherConfig,
    start: int,
    mid: nat,
    end: nat,
    id: ResourceId,
)
    requires
        is_proper(w),
        0 <= start <= mid <= end <= w.children.len(),
    ensures
        WatcherModel::configure_list_msgs(w.children, start, config, end) == WatcherModel::configure_list_msgs(
            w.children,
            start,
            config,
            mid,
        ) + WatcherModel::configure_list_msgs(w.children, mid as int, config, end),
        (w.watches.contains(id) || w.partial_watches.contains(id)) && w.hashes.contains_key(id) ==> {
            &&& w.configure_msgs(config, start).len() > 0
            &&& w.configure_msgs(config, start)[0].src_idx == config.src_idx
            &&& w.configure_msgs(config, start)[0].sender == config.sender
            &&& w.configure_msgs(config, start)[0].updates.contains_key(id)
        },
    decreases end,
{
    lemma_watched_is_reported(w, id);
    let ids = w.reported();
    if ids.contains(id) {
        assert(ids.len() > 0);
        let own = report(Some(config), ids, |id: ResourceId| w.on_configure(id));
        assert(w.configure_msgs(config, start)[0] == own[0]);
    }
    let a = WatcherModel::configure_list_msgs(w.children, start, config, mid);
    if end > mid {
        lemma_announced_in_order(w, config, start, mid, (end - 1) as nat, id);
        assert(WatcherModel::configure_list_msgs(w.children, start, config, end) =~= a
            + WatcherModel::configure_list_msgs(w.children, mid as int, config, end));
    } else {
        assert(a + WatcherModel::configure_list_msgs(w.children, mid as int, config, end) =~= a);
    }
}

/// Messages are seen one by one, and those that were to be sent before are still sent, and first, if
/// and only if the list begins with them.
pub proof fn lemma_messages_are_seen(before: Seq<Outgoing>, after: Seq<Outgoing>, i: int)
    requires
        0 <= i < after.len(),
    ensures
        messages(after).len() == after.len(),
        messages(after)[i].sender == after[i].sender,
        messages(after)[i].src_idx == after[i].msg.src_idx,
        messages(after)[i].order == after[i].msg.bulk_update@.order,
        messages(after)[i].updates == after[i].msg.bulk_update@.updates,
        is_kept(before, after) <==> before.is_prefix_of(after),
{
    if is_kept(before, after) {
        assert(after.take(before.len() as int) =~= before);
    }
    if before.is_prefix_of(after) {
        assert forall|k: int| 0 <= k < before.len() implies #[trigger] after[k] == before[k] by {
            assert(after.take(before.len() as int)[k] == before[k]);
        }
    }
}

} // verus!
