//! Sources that are backed by files, and what happens to them when files change.
//!
//! A path is named by a number: two paths have the same number exactly when they are the same path.
use vstd::prelude::*;

use crate::resource::id::ResourceId;
use crate::resource::source::dynamic::ResourceSourceDynamic;
use crate::resource::source::list::{is_missing, lemma_first_answer_counts, lemma_first_hash_counts};
use crate::resource::source::{
    DataSourceView, DataView, ResourceDataResult, ResourceDataSource, ResourceSource, SourceIndex,
};
use crate::resource::watcher::{Outgoing, ResourceWatcher, WatcherModel};
use crate::resource::LoadErrorView;

verus! {

/// A source that is backed by one file.
pub trait ResourceSourceFile: ResourceSource {
    /// The path of the file.
    spec fn path_of(&self) -> u64;

    /// The path of the file.
    fn path(&self) -> (r: u64)
        ensures
            r == self.path_of(),
    ;
}

/// What happened to files.
#[derive(Debug, Clone, Copy, PartialEq, Eq, Structural)]
pub enum FileEventKind {
    /// The files were created.
    Create,
    /// The contents of the files changed.
    ModifyData,
    /// Something was renamed to the file.
    RenameTo,
    /// The file was renamed to something.
    RenameFrom,
    /// The first file was renamed to the second one.
    RenameBoth,
    /// The files were removed.
    Remove,
    /// Anything else.
    Other,
}

/// Something that happened to files.
#[derive(Debug)]
pub struct FileEvent {
    pub kind: FileEventKind,
    pub paths: Vec<u64>,
}

/// What is to be done with the source that has the given number.
#[derive(Debug, Clone, Copy, PartialEq, Eq, Structural)]
pub enum FileAction {
    /// Read the file again.
    Reload(usize),
    /// Forget the data.
    Invalidate(usize),
}

/// The action for the source with number `i`.
pub open spec fn action(invalidate: bool, i: usize) -> FileAction {
    if invalidate {
        FileAction::Invalidate(i)
    } else {
        FileAction::Reload(i)
    }
}

/// The actions for all sources with the given path among the first `n`, in order.
pub open spec fn path_actions<S: ResourceSourceFile>(
    sources: Seq<S>,
    n: nat,
    path: u64,
    invalidate: bool,
) -> Seq<FileAction>
    decreases n,
{
    if n == 0 || n > sources.len() {
        Seq::empty()
    } else {
        let rest = path_actions(sources, (n - 1) as nat, path, invalidate);
        if sources[n - 1].path_of() == path {
            rest.push(action(invalidate, (n - 1) as usize))
        } else {
            rest
        }
    }
}

/// The actions for several paths, one path after the other.
pub open spec fn all_path_actions<S: ResourceSourceFile>(
    sources: Seq<S>,
    paths: Seq<u64>,
    invalidate: bool,
) -> Seq<FileAction>
    decreases paths.len(),
{
    if paths.len() == 0 {
        Seq::empty()
    } else {
        all_path_actions(sources, paths.drop_last(), invalidate) + path_actions(
            sources,
            sources.len(),
            paths.last(),
            invalidate,
        )
    }
}

/// What an event asks for. A rename that does not name the expected number of paths is ignored.
pub open spec fn event_actions<S: ResourceSourceFile>(sources: Seq<S>, event: FileEvent) -> Seq<FileAction> {
    let n = sources.len();
    match event.kind {
        FileEventKind::Create | FileEventKind::ModifyData => all_path_actions(sources, event.paths@, false),
        FileEventKind::Remove => all_path_actions(sources, event.paths@, true),
        FileEventKind::RenameTo => if event.paths@.len() == 1 {
            path_actions(sources, n, event.paths@[0], false)
        } else {
            Seq::empty()
        },
        FileEventKind::RenameFrom => if event.paths@.len() == 1 {
            path_actions(sources, n, event.paths@[0], true)
        } else {
            Seq::empty()
        },
        FileEventKind::RenameBoth => if event.paths@.len() == 2 {
            path_actions(sources, n, event.paths@[0], true) + path_actions(sources, n, event.paths@[1], false)
        } else {
            Seq::empty()
        },
        FileEventKind::Other => Seq::empty(),
    }
}

/// What several events ask for, one event after the other.
pub open spec fn events_actions<S: ResourceSourceFile>(sources: Seq<S>, events: Seq<FileEvent>) -> Seq<FileAction>
    decreases events.len(),
{
    if events.len() == 0 {
        Seq::empty()
    } else {
        events_actions(sources, events.drop_last()) + event_actions(sources, events.last())
    }
}

/// A changing list of sources that are backed by files.
pub struct ResourceSourceFiles<S> {
    inner: ResourceSourceDynamic<S>,
}

impl<S> View for ResourceSourceFiles<S> {
    type V = Seq<S>;

    closed spec fn view(&self) -> Seq<S> {
        self.inner@
    }
}

impl<S: ResourceSourceFile> ResourceSourceFiles<S> {
    /// The state of the watcher.
    pub closed spec fn watcher_state(&self) -> WatcherModel {
        self.inner.watcher_state()
    }

    /// The list and its watcher are in step.
    pub closed spec fn wf(&self) -> bool {
        self.inner.wf()
    }

    /// No sources.
    pub fn new() -> (r: Self)
        ensures
            r.wf(),
            r@ == Seq::<S>::empty(),
            r.watcher_state().config.is_none(),
            r.watcher_state().children == Seq::<WatcherModel>::empty(),
            r.watcher_state().hashes == Map::<ResourceId, Seq<char>>::empty(),
            r.watcher_state().watches == Seq::<ResourceId>::empty(),
            r.watcher_state().partial_watches == Seq::<ResourceId>::empty(),
    {
        ResourceSourceFiles { inner: ResourceSourceDynamic::new() }
    }

    /// The source with number `idx`.
    pub fn source(&self, idx: usize) -> (r: &S)
        requires
            idx < self@.len(),
        ensures
            *r == self@[idx as int],
    {
        self.inner.source(idx)
    }

    /// The watcher.
    pub fn watcher(&self) -> (r: &ResourceWatcher)
        requires
            self.wf(),
        ensures
            r.wf(),
            r@ == self.watcher_state(),
    {
        self.inner.watcher()
    }

    /// Puts a source before the source with number `idx`, or last; the path to observe is returned.
    pub fn insert(
        &mut self,
        idx: usize,
        file_source: S,
        watcher: ResourceWatcher,
        out: &mut Vec<Outgoing>,
    ) -> (r: u64)
        requires
            old(self).wf(),
            watcher.wf(),
            idx <= old(self)@.len(),
        ensures
            final(self).wf(),
            final(self)@ == old(self)@.insert(idx as int, file_source),
            r == file_source.path_of(),
            final(self).watcher_state() == old(self).watcher_state().with_child(
                idx as int,
                watcher@,
            ).reconfigure(idx as int),
            crate::resource::watcher::is_kept(old(out)@, final(out)@),
            crate::resource::watcher::messages(final(out)@) == crate::resource::watcher::messages(old(out)@)
                + old(self).watcher_state().with_child(idx as int, watcher@).reconfigure_msgs(idx as int),
    {
        let path: u64 = file_source.path();
        self.inner.insert(idx, file_source, watcher, out);
        path
    }

    /// Puts a source last; the path to observe is returned.
    pub fn push(&mut self, file_source: S, watcher: ResourceWatcher, out: &mut Vec<Outgoing>) -> (r: u64)
        requires
            old(self).wf(),
            watcher.wf(),
        ensures
            final(self).wf(),
            final(self)@ == old(self)@.push(file_source),
            r == file_source.path_of(),
            final(self).watcher_state() == old(self).watcher_state().with_child(
                old(self)@.len() as int,
                watcher@,
            ).reconfigure(old(self)@.len() as int),
            crate::resource::watcher::is_kept(old(out)@, final(out)@),
            crate::resource::watcher::messages(final(out)@) == crate::resource::watcher::messages(old(out)@)
                + old(self).watcher_state().with_child(old(self)@.len() as int, watcher@).reconfigure_msgs(
                old(self)@.len() as int,
            ),
    {
        let path: u64 = file_source.path();
        self.inner.push(file_source, watcher, out);
        path
    }

    /// Takes out the source with number `idx`, and its watcher, unconfigured; the path to stop
    /// observing is returned with them.
    pub fn remove(&mut self, idx: usize, out: &mut Vec<Outgoing>) -> (r: ((S, ResourceWatcher), u64))
        requires
            old(self).wf(),
            idx < old(self)@.len(),
        ensures
            final(self).wf(),
            final(self)@ == old(self)@.remove(idx as int),
            r.0.0 == old(self)@[idx as int],
            r.0.1.wf(),
            r.0.1@ == old(self).watcher_state().children[idx as int].unconfigure(),
            r.1 == r.0.0.path_of(),
            final(self).watcher_state() == old(self).watcher_state().without_child(idx as int).reconfigure(
                idx as int,
            ),
            crate::resource::watcher::is_kept(old(out)@, final(out)@),
            crate::resource::watcher::messages(final(out)@) == crate::resource::watcher::messages(old(out)@)
                + old(self).watcher_state().children[idx as int].unconfigure_msgs()
                + old(self).watcher_state().without_child(idx as int).reconfigure_msgs(idx as int),
    {
        let removed = self.inner.remove(idx, out);
        let path: u64 = removed.0.path();
        (removed, path)
    }

    /// Collects the actions for all sources with the given path.
    fn collect_path(&self, path: u64, invalidate: bool, actions: &mut Vec<FileAction>)
        ensures
            final(actions)@ == old(actions)@ + path_actions(self@, self@.len(), path, invalidate),
    {
        let ghost before = actions@;
        let mut i: usize = 0;
        assert(before + path_actions(self@, 0, path, invalidate) =~= before);
        while i < self.inner.len()
            invariant
                i <= self@.len(),
                actions@ == before + path_actions(self@, i as nat, path, invalidate),
            decreases self@.len() - i,
        {
            let ghost step = actions@;
            if self.inner.source(i).path() == path {
                if invalidate {
                    actions.push(FileAction::Invalidate(i));
                } else {
                    actions.push(FileAction::Reload(i));
                }
            }
            assert(actions@ =~= before + path_actions(self@, (i + 1) as nat, path, invalidate));
            i += 1;
        }
    }

    fn collect_paths(&self, paths: &Vec<u64>, invalidate: bool, actions: &mut Vec<FileAction>)
        ensures
            final(actions)@ == old(actions)@ + all_path_actions(self@, paths@, invalidate),
    {
        let ghost before = actions@;
        let mut i: usize = 0;
        assert(paths@.take(0) =~= Seq::<u64>::empty());
        assert(before + all_path_actions(self@, paths@.take(0), invalidate) =~= before);
        while i < paths.len()
            invariant
                i <= paths@.len(),
                actions@ == before + all_path_actions(self@, paths@.take(i as int), invalidate),
            decreases paths@.len() - i,
        {
            assert(paths@.take(i + 1).drop_last() =~= paths@.take(i as int));
            self.collect_path(paths[i], invalidate, actions);
            assert(actions@ =~= before + all_path_actions(self@, paths@.take(i + 1), invalidate));
            i += 1;
        }
        assert(paths@.take(paths@.len() as int) =~= paths@);
    }

    /// What an event asks for, added to `actions`.
    fn collect_event(&self, event: &FileEvent, actions: &mut Vec<FileAction>)
        ensures
            final(actions)@ == old(actions)@ + event_actions(self@, *event),
    {
        let ghost before = actions@;
        match event.kind {
            FileEventKind::Create | FileEventKind::ModifyData => {
                self.collect_paths(&event.paths, false, actions);
            },
            FileEventKind::RenameTo => {
                if event.paths.len() == 1 {
                    self.collect_path(event.paths[0], false, actions);
                }
            },
            FileEventKind::RenameFrom => {
                if event.paths.len() == 1 {
                    self.collect_path(event.paths[0], true, actions);
                }
            },
            FileEventKind::RenameBoth => {
                if event.paths.len() == 2 {
                    self.collect_path(event.paths[0], true, actions);
                    self.collect_path(event.paths[1], false, actions);
                }
            },
            FileEventKind::Remove => {
                self.collect_paths(&event.paths, true, actions);
            },
            FileEventKind::Other => {},
        }
        assert(actions@ =~= before + event_actions(self@, *event));
    }

    /// What is to be done with which source, in order, after the given events.
    pub fn on_events(&self, events: &Vec<FileEvent>) -> (r: Vec<FileAction>)
        ensures
            r@ == events_actions(self@, events@),
    {
        let mut actions: Vec<FileAction> = Vec::new();
        let mut i: usize = 0;
        assert(events@.take(0) =~= Seq::<FileEvent>::empty());
        while i < events.len()
            invariant
                i <= events@.len(),
                actions@ == events_actions(self@, events@.take(i as int)),
            decreases events@.len() - i,
        {
            assert(events@.take(i + 1).drop_last() =~= events@.take(i as int));
            self.collect_event(&events[i], &mut actions);
            i += 1;
        }
        assert(events@.take(events@.len() as int) =~= events@);
        actions
    }
}

impl<S: ResourceSourceFile> ResourceSource for ResourceSourceFiles<S> {
    open spec fn hash_of(&self, id: ResourceId) -> Option<DataSourceView> {
        crate::resource::source::list::first_hash(self@, id, 0)
    }

    open spec fn data_of(&self, id: ResourceId) -> Result<DataView, LoadErrorView> {
        crate::resource::source::list::first_data(self@, id, 0)
    }

    open spec fn sub_data_of(&self, id: ResourceId, sub_idx: SourceIndex) -> Result<DataView, LoadErrorView> {
        self.data_of(id)
    }

    fn hash(&self, id: &ResourceId) -> (r: Option<ResourceDataSource>) {
        self.inner.hash(id)
    }

    fn load(&self, id: &ResourceId) -> (r: ResourceDataResult) {
        self.inner.load(id)
    }

    fn sub_load(&self, id: &ResourceId, sub_idx: &SourceIndex) -> (r: ResourceDataResult) {
        self.inner.sub_load(id, sub_idx)
    }
}

/// An action concerns a source with the path that it was collected for, and every source with that
/// path gets one.
pub proof fn lemma_path_actions<S: ResourceSourceFile>(
    sources: Seq<S>,
    n: nat,
    path: u64,
    invalidate: bool,
    i: int,
)
    requires
        n <= sources.len() <= usize::MAX,
        0 <= i < n,
    ensures
        path_actions(sources, n, path, invalidate).contains(action(invalidate, i as usize)) <==> sources[i].path_of()
            == path,
    decreases n,
{
    let rest = path_actions(sources, (n - 1) as nat, path, invalidate);
    let all = path_actions(sources, n, path, invalidate);
    let a = action(invalidate, i as usize);
    lemma_path_actions_bounded(sources, (n - 1) as nat, path, invalidate);
    if sources[n - 1].path_of() == path {
        assert(all[rest.len() as int] == action(invalidate, (n - 1) as usize));
    }
    if i < n - 1 {
        lemma_path_actions(sources, (n - 1) as nat, path, invalidate, i);
        if rest.contains(a) {
            let j = choose|j: int| 0 <= j < rest.len() && rest[j] == a;
            assert(all[j] == a);
        }
        if all.contains(a) {
            let j = choose|j: int| 0 <= j < all.len() && all[j] == a;
            if j < rest.len() {
                assert(rest[j] == a);
            }
        }
    } else if all.contains(a) {
        let j = choose|j: int| 0 <= j < all.len() && all[j] == a;
        if j < rest.len() {
            assert(rest[j] == a);
            assert(rest.contains(a));
        }
    }
}

proof fn lemma_path_actions_bounded<S: ResourceSourceFile>(
    sources: Seq<S>,
    n: nat,
    path: u64,
    invalidate: bool,
)
    requires
        n <= sources.len() <= usize::MAX,
    ensures
        forall|k: usize| n <= k ==> !#[trigger] path_actions(sources, n, path, invalidate).contains(
            action(invalidate, k),
        ),
    decreases n,
{
    if n > 0 {
        lemma_path_actions_bounded(sources, (n - 1) as nat, path, invalidate);
        let rest = path_actions(sources, (n - 1) as nat, path, invalidate);
        let all = path_actions(sources, n, path, invalidate);
        assert forall|k: usize| n <= k implies !#[trigger] all.contains(action(invalidate, k)) by {
            if all.contains(action(invalidate, k)) {
                let j = choose|j: int| 0 <= j < all.len() && all[j] == action(invalidate, k);
                if j < rest.len() {
                    assert(rest[j] == action(invalidate, k));
                    assert(rest.contains(action(invalidate, k)));
                }
            }
        }
    }
}

/// The actions for a batch of events are those for its first part followed by those for the rest;
/// those for a batch of one event are the ones that the event asks for.
pub proof fn lemma_actions_concatenate<S: ResourceSourceFile>(
    sources: Seq<S>,
    a: Seq<FileEvent>,
    b: Seq<FileEvent>,
    event: FileEvent,
)
    ensures
        events_actions(sources, a + b) == events_actions(sources, a) + events_actions(sources, b),
        events_actions(sources, seq![event]) == event_actions(sources, event),
        events_actions(sources, Seq::empty()).len() == 0,
    decreases b.len(),
{
    let one = seq![event];
    assert(one.drop_last() =~= Seq::<FileEvent>::empty());
    assert(events_actions(sources, one.drop_last()) =~= Seq::<FileAction>::empty());
    assert(one.last() == event);
    assert(events_actions(sources, one) =~= event_actions(sources, event));
    if b.len() == 0 {
        assert(a + b =~= a);
        assert(events_actions(sources, a) + events_actions(sources, b) =~= events_actions(sources, a));
    } else {
        lemma_actions_concatenate(sources, a, b.drop_last(), event);
        assert((a + b).drop_last() =~= a + b.drop_last());
        assert(events_actions(sources, a + b) =~= events_actions(sources, a) + events_actions(sources, b));
    }
}

/// Every event of a batch is heeded: a batch asks for something if and only if one of its events
/// does.
pub proof fn lemma_every_event_is_heeded<S: ResourceSourceFile>(
    sources: Seq<S>,
    events: Seq<FileEvent>,
    wanted: FileAction,
)
    ensures
        events_actions(sources, events).contains(wanted) <==> exists|e: int|
            0 <= e < events.len() && event_actions(sources, #[trigger] events[e]).contains(wanted),
    decreases events.len(),
{
    if events.len() > 0 {
        let rest = events.drop_last();
        lemma_every_event_is_heeded(sources, rest, wanted);
        lemma_concat_contains(events_actions(sources, rest), event_actions(sources, events.last()), wanted);
        if exists|e: int| 0 <= e < events.len() && event_actions(sources, #[trigger] events[e]).contains(wanted) {
            let e = choose|e: int|
                0 <= e < events.len() && event_actions(sources, #[trigger] events[e]).contains(wanted);
            if e < rest.len() {
                assert(rest[e] == events[e]);
            }
        }
        if events_actions(sources, events).contains(wanted) {
            if events_actions(sources, rest).contains(wanted) {
                let e = choose|e: int|
                    0 <= e < rest.len() && event_actions(sources, #[trigger] rest[e]).contains(wanted);
                assert(events[e] == rest[e]);
            } else {
                assert(event_actions(sources, events[events.len() - 1]).contains(wanted));
            }
        }
    }
}

proof fn lemma_concat_contains(a: Seq<FileAction>, b: Seq<FileAction>, x: FileAction)
    ensures
        (a + b).contains(x) <==> a.contains(x) || b.contains(x),
{
    let c = a + b;
    if a.contains(x) {
        let i = choose|i: int| 0 <= i < a.len() && a[i] == x;
        assert(c[i] == x);
    }
    if b.contains(x) {
        let i = choose|i: int| 0 <= i < b.len() && b[i] == x;
        assert(c[a.len() + i] == x);
    }
    if c.contains(x) {
        let i = choose|i: int| 0 <= i < c.len() && c[i] == x;
        if i < a.len() {
            assert(a[i] == x);
        } else {
            assert(b[i - a.len()] == x);
        }
    }
}

/// Exactly the sources with the given path are acted upon, all of them in the given way.
proof fn lemma_path_is_acted_upon<S: ResourceSourceFile>(
    sources: Seq<S>,
    n: nat,
    path: u64,
    invalidate: bool,
    i: usize,
)
    requires
        n <= sources.len() <= usize::MAX,
    ensures
        path_actions(sources, n, path, invalidate).contains(FileAction::Reload(i)) <==> !invalidate && i < n
            && sources[i as int].path_of() == path,
        path_actions(sources, n, path, invalidate).contains(FileAction::Invalidate(i)) <==> invalidate && i < n
            && sources[i as int].path_of() == path,
    decreases n,
{
    if n > 0 {
        let rest = path_actions(sources, (n - 1) as nat, path, invalidate);
        lemma_path_is_acted_upon(sources, (n - 1) as nat, path, invalidate, i);
        let one = if sources[n - 1].path_of() == path {
            seq![action(invalidate, (n - 1) as usize)]
        } else {
            Seq::empty()
        };
        assert(path_actions(sources, n, path, invalidate) =~= rest + one);
        lemma_concat_contains(rest, one, FileAction::Reload(i));
        lemma_concat_contains(rest, one, FileAction::Invalidate(i));
        if sources[n - 1].path_of() == path {
            assert(one[0] == action(invalidate, (n - 1) as usize));
        }
    }
}

proof fn lemma_paths_are_acted_upon<S: ResourceSourceFile>(
    sources: Seq<S>,
    paths: Seq<u64>,
    invalidate: bool,
    i: usize,
)
    requires
        sources.len() <= usize::MAX,
    ensures
        all_path_actions(sources, paths, invalidate).contains(FileAction::Reload(i)) <==> !invalidate && i
            < sources.len() && paths.contains(sources[i as int].path_of()),
        all_path_actions(sources, paths, invalidate).contains(FileAction::Invalidate(i)) <==> invalidate && i
            < sources.len() && paths.contains(sources[i as int].path_of()),
    decreases paths.len(),
{
    if paths.len() > 0 {
        let rest = paths.drop_last();
        lemma_paths_are_acted_upon(sources, rest, invalidate, i);
        lemma_path_is_acted_upon(sources, sources.len(), paths.last(), invalidate, i);
        let a = all_path_actions(sources, rest, invalidate);
        let b = path_actions(sources, sources.len(), paths.last(), invalidate);
        lemma_concat_contains(a, b, FileAction::Reload(i));
        lemma_concat_contains(a, b, FileAction::Invalidate(i));
        let p = sources[i as int].path_of();
        if rest.contains(p) {
            let j = choose|j: int| 0 <= j < rest.len() && rest[j] == p;
            assert(paths[j] == p);
        }
        if paths.contains(p) && p != paths.last() {
            let j = choose|j: int| 0 <= j < paths.len() && paths[j] == p;
            assert(rest[j] == p);
        }
        assert(paths[paths.len() - 1] == paths.last());
    }
}

/// A source is read again if and only if some event of the batch says that its file was created or
/// changed, or that something was renamed to it; its data is forgotten if and only if some event
/// says that its file was removed or renamed to something. A rename counts only if it names as many
/// paths as it should.
pub proof fn lemma_events_reach_their_sources<S: ResourceSourceFile>(
    sources: Seq<S>,
    events: Seq<FileEvent>,
    i: usize,
)
    requires
        sources.len() <= usize::MAX,
        i < sources.len(),
    ensures
        ({
            let path = sources[i as int].path_of();
            &&& events_actions(sources, events).contains(FileAction::Reload(i)) <==> exists|e: int|
                0 <= e < events.len() && {
                    let event = #[trigger] events[e];
                    ||| (event.kind is Create || event.kind is ModifyData) && event.paths@.contains(path)
                    ||| event.kind is RenameTo && event.paths@ == seq![path]
                    ||| event.kind is RenameBoth && event.paths@.len() == 2 && event.paths@[1] == path
                }
            &&& events_actions(sources, events).contains(FileAction::Invalidate(i)) <==> exists|e: int|
                0 <= e < events.len() && {
                    let event = #[trigger] events[e];
                    ||| event.kind is Remove && event.paths@.contains(path)
                    ||| event.kind is RenameFrom && event.paths@ == seq![path]
                    ||| event.kind is RenameBoth && event.paths@.len() == 2 && event.paths@[0] == path
                }
        }),
{
    let path = sources[i as int].path_of();
    let n = sources.len();
    lemma_every_event_is_heeded(sources, events, FileAction::Reload(i));
    lemma_every_event_is_heeded(sources, events, FileAction::Invalidate(i));
    assert forall|e: int| 0 <= e < events.len() implies {
        let event = #[trigger] events[e];
        &&& event_actions(sources, event).contains(FileAction::Reload(i)) <==> {
            ||| (event.kind is Create || event.kind is ModifyData) && event.paths@.contains(path)
            ||| event.kind is RenameTo && event.paths@ == seq![path]
            ||| event.kind is RenameBoth && event.paths@.len() == 2 && event.paths@[1] == path
        }
        &&& event_actions(sources, event).contains(FileAction::Invalidate(i)) <==> {
            ||| event.kind is Remove && event.paths@.contains(path)
            ||| event.kind is RenameFrom && event.paths@ == seq![path]
            ||| event.kind is RenameBoth && event.paths@.len() == 2 && event.paths@[0] == path
        }
    } by {
        let event = events[e];
        let paths = event.paths@;
        lemma_paths_are_acted_upon(sources, paths, false, i);
        lemma_paths_are_acted_upon(sources, paths, true, i);
        if paths.len() == 1 {
            lemma_path_is_acted_upon(sources, n, paths[0], false, i);
            lemma_path_is_acted_upon(sources, n, paths[0], true, i);
            assert(paths =~= seq![paths[0]]);
        }
        if paths.len() == 2 {
            lemma_path_is_acted_upon(sources, n, paths[0], false, i);
            lemma_path_is_acted_upon(sources, n, paths[0], true, i);
            lemma_path_is_acted_upon(sources, n, paths[1], false, i);
            lemma_path_is_acted_upon(sources, n, paths[1], true, i);
            let a = path_actions(sources, n, paths[0], true);
            let b = path_actions(sources, n, paths[1], false);
            lemma_concat_contains(a, b, FileAction::Reload(i));
            lemma_concat_contains(a, b, FileAction::Invalidate(i));
        }
    }
}

/// A file that was renamed over the file of another source first takes the data from the one that it
/// was, and then gives it to the one that it became.
pub proof fn lemma_rename_forgets_first<S: ResourceSourceFile>(sources: Seq<S>, event: FileEvent, i: int, j: int)
    requires
        sources.len() <= usize::MAX,
        event.kind is RenameBoth,
        event.paths@.len() == 2,
        0 <= i < event_actions(sources, event).len(),
        0 <= j < event_actions(sources, event).len(),
        event_actions(sources, event)[i] is Invalidate,
        event_actions(sources, event)[j] is Reload,
    ensures
        i < j,
{
    let a = path_actions(sources, sources.len(), event.paths@[0], true);
    let b = path_actions(sources, sources.len(), event.paths@[1], false);
    lemma_all_alike(sources, sources.len(), event.paths@[0], true);
    lemma_all_alike(sources, sources.len(), event.paths@[1], false);
    assert(event_actions(sources, event) == a + b);
    if i >= a.len() {
        assert((a + b)[i] == b[i - a.len()]);
    }
    if j < a.len() {
        assert((a + b)[j] == a[j]);
    }
}

proof fn lemma_all_alike<S: ResourceSourceFile>(sources: Seq<S>, n: nat, path: u64, invalidate: bool)
    ensures
        forall|k: int|
            0 <= k < path_actions(sources, n, path, invalidate).len() ==> (#[trigger] path_actions(
                sources,
                n,
                path,
                invalidate,
            )[k] is Invalidate) == invalidate,
    decreases n,
{
    if n > 0 {
        lemma_all_alike(sources, (n - 1) as nat, path, invalidate);
    }
}

/// The sources with one path are acted upon in their order, each once.
pub proof fn lemma_sources_in_order<S: ResourceSourceFile>(
    sources: Seq<S>,
    n: nat,
    path: u64,
    invalidate: bool,
    j: int,
    k: int,
)
    requires
        n <= sources.len() <= usize::MAX,
        0 <= j < k < path_actions(sources, n, path, invalidate).len(),
    ensures
        ({
            let actions = path_actions(sources, n, path, invalidate);
            match (actions[j], actions[k]) {
                (FileAction::Reload(a), FileAction::Reload(b)) => !invalidate && a < b < n,
                (FileAction::Invalidate(a), FileAction::Invalidate(b)) => invalidate && a < b < n,
                _ => false,
            }
        }),
    decreases n,
{
    let rest = path_actions(sources, (n - 1) as nat, path, invalidate);
    let all = path_actions(sources, n, path, invalidate);
    lemma_all_alike(sources, n, path, invalidate);
    if k < rest.len() {
        lemma_sources_in_order(sources, (n - 1) as nat, path, invalidate, j, k);
    } else {
        let x = match rest[j] {
            FileAction::Reload(a) => a,
            FileAction::Invalidate(a) => a,
        };
        assert(rest.contains(rest[j]));
        lemma_path_is_acted_upon(sources, (n - 1) as nat, path, invalidate, x);
        assert(all[j] == rest[j]);
    }
}

/// The paths of an event are taken one after the other.
pub proof fn lemma_paths_concatenate<S: ResourceSourceFile>(
    sources: Seq<S>,
    a: Seq<u64>,
    b: Seq<u64>,
    invalidate: bool,
)
    ensures
        all_path_actions(sources, a + b, invalidate) == all_path_actions(sources, a, invalidate) + all_path_actions(
            sources,
            b,
            invalidate,
        ),
    decreases b.len(),
{
    if b.len() == 0 {
        assert(a + b =~= a);
        assert(all_path_actions(sources, a, invalidate) + all_path_actions(sources, b, invalidate)
            =~= all_path_actions(sources, a, invalidate));
    } else {
        lemma_paths_concatenate(sources, a, b.drop_last(), invalidate);
        assert((a + b).drop_last() =~= a + b.drop_last());
        assert(all_path_actions(sources, a + b, invalidate) =~= all_path_actions(sources, a, invalidate)
            + all_path_actions(sources, b, invalidate));
    }
}

/// A list of files has the hash and the data of the first of its sources that answers, whichever
/// position is asked for.
pub proof fn lemma_files_ask_in_order<S: ResourceSourceFile>(
    list: ResourceSourceFiles<S>,
    id: ResourceId,
    sub_idx: SourceIndex,
    i: int,
)
    requires
        0 <= i < list@.len() <= usize::MAX,
    ensures
        (forall|j: int| 0 <= j < i ==> (#[trigger] list@[j]).hash_of(id) is None) ==> (list@[i].hash_of(id) matches Some(
            source,
        ) ==> (list.hash_of(id) matches Some(found) && found.hash == source.hash && (found.idx matches Some(idx)
            && idx.idx == i && idx.below() == source.idx))),
        (forall|j: int| 0 <= j < i ==> is_missing((#[trigger] list@[j]).data_of(id))) ==> (list@[i].data_of(
            id,
        ) matches Ok(data) ==> (list.data_of(id) matches Ok(found) && found.data == data.data && (
        found.source.idx matches Some(idx) && idx.idx == i && idx.below() == data.source.idx))),
        list.hash_of(id) is Some ==> exists|j: int|
            0 <= j < list@.len() && (#[trigger] list@[j]).hash_of(id) is Some,
        list.sub_data_of(id, sub_idx) == list.data_of(id),
{
    if forall|j: int| 0 <= j < i ==> (#[trigger] list@[j]).hash_of(id) is None {
        lemma_first_hash_counts(list@, id, 0, i);
    }
    if forall|j: int| 0 <= j < i ==> is_missing((#[trigger] list@[j]).data_of(id)) {
        lemma_first_answer_counts(list@, id, 0, i);
    }
    if forall|j: int| 0 <= j < list@.len() ==> (#[trigger] list@[j]).hash_of(id) is None {
        lemma_first_hash_counts(list@, id, 0, list@.len() as int);
    }
}

} // verus!
