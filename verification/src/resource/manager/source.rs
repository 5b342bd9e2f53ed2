//! The outermost list of sources.
use vstd::prelude::*;

use crate::resource::id::ResourceId;
use crate::resource::source::{
    DataView, ResourceDataResult, ResourceSource, SealedDataView, SealedResourceData,
    SealedResourceDataSource, SealedView, SourceIndex,
};
use crate::resource::watcher::{
    at_path, is_proper, is_within, lemma_unwatch_at_path, lemma_watch_at_path, position_of, widths_fit, Outgoing,
    ResourceWatcher, ResourceWatcherConfig, ResourceWatcherSender, WatcherModel,
};
use crate::resource::{LoadErrorView, ResourceLoadError};

verus! {

/// What the first source that has a hash answers, seen from outside.
pub open spec fn find_hash<S: ResourceSource>(sources: Seq<S>, id: ResourceId, from: int) -> Option<SealedView>
    decreases sources.len() - from,
{
    if from < 0 || from >= sources.len() {
        None
    } else {
        match sources[from].hash_of(id) {
            Some(source) => Some(source.seal(from as usize)),
            None => find_hash(sources, id, from + 1),
        }
    }
}

/// What the first source that does not report the data as missing answers, seen from outside;
/// `None` if they all do.
pub open spec fn find_data(
    results: spec_fn(int) -> Result<DataView, LoadErrorView>,
    count: int,
    from: int,
) -> Option<Result<SealedDataView, LoadErrorView>>
    decreases count - from,
{
    if from < 0 || from >= count {
        None
    } else {
        match results(from) {
            Ok(data) => Some(Ok(data.seal(from as usize))),
            Err(LoadErrorView::NotFound(_)) => find_data(results, count, from + 1),
            Err(error) => Some(Err(error)),
        }
    }
}

/// The mathematical value of what a search for data ends with.
pub open spec fn found(r: Option<Result<SealedResourceData, ResourceLoadError>>) -> Option<
    Result<SealedDataView, LoadErrorView>,
> {
    match r {
        Some(Ok(data)) => Some(Ok(data@)),
        Some(Err(error)) => Some(Err(error@)),
        None => None,
    }
}

/// A search for data that asks one source after the other.
#[derive(Debug)]
pub struct DataScan {
    pub next: usize,
    pub count: usize,
}

/// Where a search stands.
#[derive(Debug)]
pub enum ScanStep {
    /// The source with this number is to be asked next.
    Ask(usize),
    /// The search has ended.
    Done(Option<Result<SealedResourceData, ResourceLoadError>>),
}

impl DataScan {
    /// A search through so many sources.
    pub fn new(count: usize) -> (r: Self)
        ensures
            r == (DataScan { next: 0, count }),
    {
        DataScan { next: 0, count }
    }

    /// The first step.
    pub fn start(&self) -> (r: ScanStep)
        ensures
            self.next < self.count ==> r == ScanStep::Ask(self.next),
            self.next >= self.count ==> r == ScanStep::Done(None),
    {
        if self.next < self.count {
            ScanStep::Ask(self.next)
        } else {
            ScanStep::Done(None)
        }
    }

    /// The step after the source that was asked has answered.
    pub fn answer(&mut self, result: ResourceDataResult) -> (r: ScanStep)
        requires
            old(self).next < old(self).count,
        ensures
            final(self).count == old(self).count,
            match result {
                Ok(data) => {
                    &&& final(self).next == old(self).next
                    &&& r matches ScanStep::Done(d)
                    &&& found(d) == Some(Ok::<SealedDataView, LoadErrorView>(data@.seal(old(self).next)))
                },
                Err(error) => if error@ is NotFound {
                    &&& final(self).next == old(self).next + 1
                    &&& final(self).next < final(self).count ==> r == ScanStep::Ask(final(self).next)
                    &&& final(self).next >= final(self).count ==> r == ScanStep::Done(None)
                } else {
                    &&& final(self).next == old(self).next
                    &&& r matches ScanStep::Done(d)
                    &&& found(d) == Some(Err::<SealedDataView, LoadErrorView>(error@))
                },
            },
    {
        match result {
            Ok(data) => ScanStep::Done(Some(Ok(data.seal(self.next)))),
            Err(error) => {
                if error.is_not_found() {
                    self.next = self.next + 1;
                    self.start()
                } else {
                    ScanStep::Done(Some(Err(error)))
                }
            },
        }
    }
}

/// The sources of a manager, each with its watcher. Earlier sources take precedence.
pub struct Sources<S> {
    inner: Vec<S>,
    watchers: Vec<ResourceWatcher>,
}

impl<S: ResourceSource> Sources<S> {
    /// The sources.
    pub closed spec fn list(&self) -> Seq<S> {
        self.inner@
    }

    /// The states of the watchers.
    pub closed spec fn watcher_states(&self) -> Seq<WatcherModel> {
        Seq::new(self.watchers@.len(), |i: int| self.watchers@[i]@)
    }

    /// Each source has its watcher.
    pub closed spec fn wf(&self) -> bool {
        &&& self.inner@.len() == self.watchers@.len()
        &&& forall|i: int| 0 <= i < self.watchers@.len() ==> (#[trigger] self.watchers@[i]).wf()
    }

    /// Each source has its watcher.
    pub proof fn lemma_in_step(&self)
        requires
            self.wf(),
        ensures
            self.watcher_states().len() == self.list().len(),
    {
    }

    /// The given sources, each with its watcher.
    pub fn new(sources: Vec<S>, watchers: Vec<ResourceWatcher>) -> (r: Self)
        requires
            sources@.len() == watchers@.len(),
            forall|i: int| 0 <= i < watchers@.len() ==> (#[trigger] watchers@[i]).wf(),
        ensures
            r.wf(),
            r.list() == sources@,
            r.watcher_states() == Seq::new(watchers@.len(), |i: int| watchers@[i]@),
    {
        Sources { inner: sources, watchers }
    }

    /// The number of sources.
    pub fn len(&self) -> (r: usize)
        ensures
            r == self.list().len(),
    {
        self.inner.len()
    }

    /// The watcher of a source.
    pub fn watcher(&self, idx: usize) -> (r: &ResourceWatcher)
        requires
            self.wf(),
            idx < self.list().len(),
        ensures
            r.wf(),
            r@ == self.watcher_states()[idx as int],
    {
        &self.watchers[idx]
    }

    /// Lets every watcher report to `sender`, from the number of its source.
    pub fn configure(&mut self, sender: ResourceWatcherSender, out: &mut Vec<Outgoing>)
        requires
            old(self).wf(),
        ensures
            final(self).wf(),
            final(self).list() == old(self).list(),
            final(self).watcher_states() == Seq::new(
                old(self).watcher_states().len(),
                |i: int| old(self).watcher_states()[i].configure(outermost(i, sender), 0),
            ),
            crate::resource::watcher::is_kept(old(out)@, final(out)@),
            crate::resource::watcher::messages(final(out)@) == crate::resource::watcher::messages(old(out)@)
                + configure_all_msgs(old(self).watcher_states(), sender, old(self).watcher_states().len()),
    {
        let ghost pre = *self;
        let ghost sent = crate::resource::watcher::messages(out@);
        let n: usize = self.watchers.len();
        let mut i: usize = 0;
        assert(sent + configure_all_msgs(pre.watcher_states(), sender, 0) =~= sent);
        while i < n
            invariant
                pre == *old(self),
                pre.wf(),
                n == pre.watchers@.len(),
                i <= n,
                self.inner == pre.inner,
                self.watchers@.len() == n,
                forall|j: int| 0 <= j < n ==> (#[trigger] self.watchers@[j]).wf(),
                forall|j: int| i <= j < n ==> #[trigger] self.watchers@[j] == pre.watchers@[j],
                forall|j: int|
                    0 <= j < i ==> (#[trigger] self.watchers@[j])@ == pre.watchers@[j]@.configure(
                        outermost(j, sender),
                        0,
                    ),
                crate::resource::watcher::is_kept(old(out)@, out@),
                crate::resource::watcher::messages(out@) == sent + configure_all_msgs(
                    pre.watcher_states(),
                    sender,
                    i as nat,
                ),
            decreases n - i,
        {
            let ghost before = self.watchers@;
            assert(self.watchers@[i as int] == pre.watchers@[i as int]);
            let config = ResourceWatcherConfig { src_idx: SourceIndex::new(i), sender };
            self.watchers[i].configure(config, out);
            proof {
                assert(crate::resource::watcher::messages(out@) =~= sent + configure_all_msgs(
                    pre.watcher_states(),
                    sender,
                    (i + 1) as nat,
                ));
                assert forall|j: int| 0 <= j < i + 1 implies (#[trigger] self.watchers@[j])@
                    == pre.watchers@[j]@.configure(outermost(j, sender), 0) by {
                    if j < i {
                        assert(self.watchers@[j] == before[j]);
                    }
                }
            }
            i += 1;
        }
        assert(self.watcher_states() =~= Seq::new(
            pre.watcher_states().len(),
            |i: int| pre.watcher_states()[i].configure(outermost(i, sender), 0),
        ));
    }

    /// Watches an identifier in every source up to the given position, and in none beyond it.
    pub fn watch_n(&mut self, id: &ResourceId, source_idx: &SourceIndex)
        requires
            old(self).wf(),
        ensures
            final(self).wf(),
            final(self).list() == old(self).list(),
            final(self).watcher_states() == watch_n(old(self).watcher_states(), *id, *source_idx),
    {
        let ghost pre = *self;
        let n: usize = self.watchers.len();
        let mut i: usize = 0;
        while i < n
            invariant
                pre == *old(self),
                pre.wf(),
                n == pre.watchers@.len(),
                i <= n,
                self.inner == pre.inner,
                self.watchers@.len() == n,
                forall|j: int| 0 <= j < n ==> (#[trigger] self.watchers@[j]).wf(),
                forall|j: int| i <= j < n ==> #[trigger] self.watchers@[j] == pre.watchers@[j],
                forall|j: int|
                    0 <= j < i ==> (#[trigger] self.watchers@[j])@ == (if j <= source_idx.idx {
                        pre.watchers@[j]@.watch(*id, source_idx.below())
                    } else {
                        pre.watchers@[j]@.unwatch(*id)
                    }),
            decreases n - i,
        {
            let ghost before = self.watchers@;
            assert(self.watchers@[i as int] == pre.watchers@[i as int]);
            if i <= source_idx.idx() {
                let below = match source_idx.sub_idx() {
                    Some(position) => Some(position.clone()),
                    None => None,
                };
                self.watchers[i].watch(*id, below);
            } else {
                self.watchers[i].unwatch(id);
            }
            proof {
                assert forall|j: int| 0 <= j < i + 1 implies (#[trigger] self.watchers@[j])@ == (if j
                    <= source_idx.idx {
                    pre.watchers@[j]@.watch(*id, source_idx.below())
                } else {
                    pre.watchers@[j]@.unwatch(*id)
                }) by {
                    if j < i {
                        assert(self.watchers@[j] == before[j]);
                    }
                }
            }
            i += 1;
        }
        assert(self.watcher_states() =~= watch_n(pre.watcher_states(), *id, *source_idx));
    }

    /// Stops watching an identifier in every source.
    pub fn unwatch_all(&mut self, id: &ResourceId)
        requires
            old(self).wf(),
        ensures
            final(self).wf(),
            final(self).list() == old(self).list(),
            final(self).watcher_states() == unwatch_all(old(self).watcher_states(), *id),
    {
        let ghost pre = *self;
        let n: usize = self.watchers.len();
        let mut i: usize = 0;
        while i < n
            invariant
                pre == *old(self),
                pre.wf(),
                n == pre.watchers@.len(),
                i <= n,
                self.inner == pre.inner,
                self.watchers@.len() == n,
                forall|j: int| 0 <= j < n ==> (#[trigger] self.watchers@[j]).wf(),
                forall|j: int| i <= j < n ==> #[trigger] self.watchers@[j] == pre.watchers@[j],
                forall|j: int| 0 <= j < i ==> (#[trigger] self.watchers@[j])@ == pre.watchers@[j]@.unwatch(*id),
            decreases n - i,
        {
            let ghost before = self.watchers@;
            assert(self.watchers@[i as int] == pre.watchers@[i as int]);
            self.watchers[i].unwatch(id);
            proof {
                assert forall|j: int| 0 <= j < i + 1 implies (#[trigger] self.watchers@[j])@
                    == pre.watchers@[j]@.unwatch(*id) by {
                    if j < i {
                        assert(self.watchers@[j] == before[j]);
                    }
                }
            }
            i += 1;
        }
        assert(self.watcher_states() =~= unwatch_all(pre.watcher_states(), *id));
    }

    /// The data at a position, seen from outside; `None` if there is no such source.
    pub fn load_at(&self, id: &ResourceId, source_idx: &SourceIndex) -> (r: Option<
        Result<SealedResourceData, ResourceLoadError>,
    >)
        ensures
            found(r) == load_at(self.list(), *id, *source_idx),
    {
        let idx: usize = source_idx.idx();
        if idx >= self.inner.len() {
            return None;
        }
        let result = match source_idx.sub_idx() {
            Some(below) => self.inner[idx].sub_load(id, below),
            None => self.inner[idx].load(id),
        };
        match result {
            Ok(data) => Some(Ok(data.seal(idx))),
            Err(error) => Some(Err(error)),
        }
    }

    /// The hash of the first source that has one.
    pub fn find_hash(&self, id: &ResourceId) -> (r: Option<SealedResourceDataSource>)
        ensures
            match r {
                Some(source) => find_hash(self.list(), *id, 0) == Some(source@),
                None => find_hash(self.list(), *id, 0) == None::<SealedView>,
            },
    {
        let mut idx: usize = 0;
        while idx < self.inner.len()
            invariant
                idx <= self.inner@.len(),
                find_hash(self.list(), *id, 0) == find_hash(self.list(), *id, idx as int),
            decreases self.inner@.len() - idx,
        {
            match self.inner[idx].hash(id) {
                Some(source) => return Some(source.seal(idx)),
                None => {},
            }
            idx += 1;
        }
        None
    }

    /// The data of the first source that does not report it as missing.
    pub fn find_data(&self, id: &ResourceId) -> (r: Option<Result<SealedResourceData, ResourceLoadError>>)
        ensures
            found(r) == find_data(|i: int| self.list()[i].data_of(*id), self.list().len() as int, 0),
    {
        let mut scan = DataScan::new(self.inner.len());
        let ghost results = |i: int| self.list()[i].data_of(*id);
        let count: usize = self.inner.len();
        let mut step = scan.start();
        loop
            invariant
                count == self.inner@.len(),
                scan.count == count,
                scan.next <= count,
                results == (|i: int| self.list()[i].data_of(*id)),
                match step {
                    ScanStep::Ask(idx) => {
                        &&& idx == scan.next
                        &&& idx < count
                        &&& find_data(results, count as int, 0) == find_data(results, count as int, idx as int)
                    },
                    ScanStep::Done(r) => find_data(results, count as int, 0) == found(r),
                },
            decreases (match step {
                ScanStep::Ask(idx) => count - idx,
                ScanStep::Done(_) => 0,
            }),
        {
            match step {
                ScanStep::Ask(idx) => {
                    let result = self.inner[idx].load(id);
                    let ghost answered = crate::resource::source::data_result(result);
                    assert(results(idx as int) == answered);
                    step = scan.answer(result);
                    proof {
                        if answered.is_err() && answered->Err_0 is NotFound {
                            assert(find_data(results, count as int, idx as int) == find_data(
                                results,
                                count as int,
                                idx + 1,
                            ));
                        }
                    }
                },
                ScanStep::Done(r) => {
                    return r;
                },
            }
        }
    }
}

/// The configuration of the watcher of source number `i`.
pub open spec fn outermost(i: int, sender: ResourceWatcherSender) -> ResourceWatcherConfig {
    ResourceWatcherConfig { src_idx: SourceIndex::leaf(i as usize), sender }
}

/// What configuring the first `n` watchers reports.
pub open spec fn configure_all_msgs(
    watchers: Seq<WatcherModel>,
    sender: ResourceWatcherSender,
    n: nat,
) -> Seq<crate::resource::watcher::MsgView>
    decreases n,
{
    if n == 0 || n > watchers.len() {
        Seq::empty()
    } else {
        configure_all_msgs(watchers, sender, (n - 1) as nat) + watchers[n - 1].configure_msgs(
            outermost(n - 1, sender),
            0,
        )
    }
}

/// Watchers after `id` is to be watched up to a position.
pub open spec fn watch_n(watchers: Seq<WatcherModel>, id: ResourceId, limit: SourceIndex) -> Seq<WatcherModel> {
    Seq::new(
        watchers.len(),
        |i: int|
            if i <= limit.idx {
                watchers[i].watch(id, limit.below())
            } else {
                watchers[i].unwatch(id)
            },
    )
}

/// Watchers after `id` is to be watched no longer.
pub open spec fn unwatch_all(watchers: Seq<WatcherModel>, id: ResourceId) -> Seq<WatcherModel> {
    Seq::new(watchers.len(), |i: int| watchers[i].unwatch(id))
}

/// The data at a position, seen from outside; `None` if there is no such source.
pub open spec fn load_at<S: ResourceSource>(sources: Seq<S>, id: ResourceId, at: SourceIndex) -> Option<
    Result<SealedDataView, LoadErrorView>,
> {
    if at.idx >= sources.len() {
        None
    } else {
        let result = match at.below() {
            Some(below) => sources[at.idx as int].sub_data_of(id, below),
            None => sources[at.idx as int].data_of(id),
        };
        Some(
            match result {
                Ok(data) => Ok(data.seal(at.idx)),
                Err(error) => Err(error),
            },
        )
    }
}

/// The hash that a search finds is that of one of the sources.
pub proof fn lemma_find_hash_in_range<S: ResourceSource>(sources: Seq<S>, id: ResourceId, from: int)
    requires
        0 <= from,
        sources.len() <= usize::MAX,
    ensures
        match find_hash(sources, id, from) {
            Some(source) => from <= source.idx.idx < sources.len(),
            None => true,
        },
    decreases sources.len() - from,
{
    if from < sources.len() {
        lemma_find_hash_in_range(sources, id, from + 1);
    }
}

/// The data that a search finds comes from the first source that has it, or whose failure is not
/// merely a lack of data; every source before that one lacks it.
pub proof fn lemma_find_data_first(
    results: spec_fn(int) -> Result<DataView, LoadErrorView>,
    count: int,
    from: int,
    i: int,
)
    requires
        0 <= from <= i < count <= usize::MAX,
        forall|j: int| from <= j < i ==> (#[trigger] results(j)).is_err() && results(j)->Err_0 is NotFound,
        results(i).is_ok() || !(results(i)->Err_0 is NotFound),
    ensures
        find_data(results, count, from) == (match results(i) {
            Ok(data) => Some(Ok::<SealedDataView, LoadErrorView>(data.seal(i as usize))),
            Err(error) => Some(Err(error)),
        }),
    decreases i - from,
{
    if from < i {
        assert(results(from).is_err() && results(from)->Err_0 is NotFound);
        lemma_find_data_first(results, count, from + 1, i);
    }
}

/// The hash that is found is that of the first source that has one, at its number, and at the
/// position below it that the source itself gives. None is found if and only if no source has one.
pub proof fn lemma_first_hash_is_found<S: ResourceSource>(sources: Seq<S>, id: ResourceId, from: int, i: int)
    requires
        0 <= from <= i <= sources.len() <= usize::MAX,
        forall|j: int| from <= j < i ==> (#[trigger] sources[j]).hash_of(id) is None,
    ensures
        i == sources.len() ==> find_hash(sources, id, from) is None,
        i < sources.len() ==> (sources[i].hash_of(id) matches Some(source) ==> (find_hash(sources, id, from) matches Some(
            found,
        ) && {
            &&& found.hash == source.hash
            &&& found.idx.idx == i
            &&& found.idx.below() == source.idx
        })),
    decreases i - from,
{
    if from < i {
        lemma_first_hash_is_found(sources, id, from + 1, i);
    }
}

/// No data is found if and only if every source lacks it.
pub proof fn lemma_nothing_is_found(
    results: spec_fn(int) -> Result<DataView, LoadErrorView>,
    count: int,
    from: int,
)
    requires
        0 <= from <= count <= usize::MAX,
    ensures
        find_data(results, count, from) is None <==> forall|j: int|
            from <= j < count ==> ((#[trigger] results(j)) matches Err(error) && error is NotFound),
    decreases count - from,
{
    if from < count {
        lemma_nothing_is_found(results, count, from + 1);
    }
}

/// The data that is found is that of the first source that does not lack it, unchanged, at its number
/// and at the position below it that the source itself gives; a failure is passed on as it is.
pub proof fn lemma_first_data_is_found(
    results: spec_fn(int) -> Result<DataView, LoadErrorView>,
    count: int,
    i: int,
)
    requires
        0 <= i < count <= usize::MAX,
        forall|j: int| 0 <= j < i ==> ((#[trigger] results(j)) matches Err(error) && error is NotFound),
    ensures
        match results(i) {
            Ok(data) => find_data(results, count, 0) matches Some(Ok(found)) && {
                &&& found.data == data.data
                &&& found.source.hash == data.source.hash
                &&& found.source.idx.idx == i
                &&& found.source.idx.below() == data.source.idx
            },
            Err(error) => !(error is NotFound) ==> find_data(results, count, 0) == Some(
                Err::<SealedDataView, LoadErrorView>(error),
            ),
        },
{
    if results(i).is_ok() || !(results(i)->Err_0 is NotFound) {
        assert forall|j: int| 0 <= j < i implies (#[trigger] results(j)).is_err() && results(j)->Err_0 is NotFound by {
            assert(results(j) matches Err(error) && error is NotFound);
        }
        lemma_find_data_first(results, count, 0, i);
    }
}

/// Loading at a position asks the source with its outermost number, and no other: for the numbers
/// below, if there are any. The answer is seen from outside under that number; a number beyond the
/// sources names nothing.
pub proof fn lemma_position_is_loaded<S: ResourceSource>(
    sources: Seq<S>,
    id: ResourceId,
    i: usize,
    below: Seq<usize>,
)
    ensures
        ({
            let answer = load_at(sources, id, SourceIndex::nested(seq![i] + below));
            let asked = if below.len() == 0 {
                sources[i as int].data_of(id)
            } else {
                sources[i as int].sub_data_of(id, SourceIndex::nested(below))
            };
            &&& i >= sources.len() ==> answer is None
            &&& i < sources.len() ==> match asked {
                Ok(data) => answer matches Some(Ok(found)) && {
                    &&& found.data == data.data
                    &&& found.source.hash == data.source.hash
                    &&& found.source.idx.idx == i
                    &&& found.source.idx.below() == data.source.idx
                },
                Err(error) => answer == Some(Err::<SealedDataView, LoadErrorView>(error)),
            }
        }),
{
    let all = seq![i] + below;
    assert(all[0] == i);
    if below.len() == 0 {
        assert(all.len() == 1);
    } else {
        assert(all.drop_first() =~= below);
    }
}

/// Watching up to a position reaches every source, however deep it is nested, whose numbers do not
/// exceed those of the position, and no others: those stop watching. What else is watched stays.
pub proof fn lemma_watch_reaches_up_to(
    watchers: Seq<WatcherModel>,
    id: ResourceId,
    limit: Seq<usize>,
    path: Seq<usize>,
    other: ResourceId,
)
    requires
        limit.len() > 0,
        path.len() > 0,
        path[0] < watchers.len(),
        is_proper(watchers[path[0] as int]),
        widths_fit(watchers[path[0] as int]),
        at_path(watchers[path[0] as int], path.skip(1)).is_some(),
    ensures
        ({
            let all = watch_n(watchers, id, SourceIndex::nested(limit));
            let before = at_path(watchers[path[0] as int], path.skip(1)).unwrap();
            &&& all.len() == watchers.len()
            &&& at_path(all[path[0] as int], path.skip(1)) matches Some(after) && {
                &&& (after.watches.contains(id) || after.partial_watches.contains(id)) || !is_within(path, limit)
                &&& !is_within(path, limit) ==> !after.watches.contains(id) && !after.partial_watches.contains(id)
                &&& is_within(path, limit) && path.len() >= limit.len() ==> after.watches.contains(id)
                &&& other != id ==> after.watches.contains(other) == before.watches.contains(other)
                &&& other != id ==> after.partial_watches.contains(other) == before.partial_watches.contains(other)
                &&& after.config == before.config
                &&& after.hashes == before.hashes
            }
        }),
{
    let w = watchers[path[0] as int];
    let rest = path.skip(1);
    let inner = limit.drop_first();
    assert(SourceIndex::nested(limit).idx == limit[0]);
    assert(SourceIndex::nested(limit).below() == position_of(inner));
    if path[0] <= limit[0] {
        lemma_watch_at_path(w, id, inner, rest, other);
        if is_within(rest, inner) {
            assert forall|j: int|
                #![trigger path[j]]
                0 <= j < path.len() && j < limit.len() implies path[j] <= limit[j] by {
                if j > 0 {
                    assert(rest[j - 1] <= inner[j - 1]);
                }
            }
        }
        if is_within(path, limit) {
            assert forall|j: int|
                #![trigger rest[j]]
                0 <= j < rest.len() && j < inner.len() implies rest[j] <= inner[j] by {
                assert(path[j + 1] <= limit[j + 1]);
            }
        }
    } else {
        lemma_unwatch_at_path(w, id, rest, other);
        assert(path[0] > limit[0]);
    }
}

/// Unwatching reaches every source, however deep it is nested. What else is watched stays.
pub proof fn lemma_unwatch_reaches_all(
    watchers: Seq<WatcherModel>,
    id: ResourceId,
    i: int,
    path: Seq<usize>,
    other: ResourceId,
)
    requires
        0 <= i < watchers.len(),
        is_proper(watchers[i]),
        at_path(watchers[i], path).is_some(),
    ensures
        ({
            let all = unwatch_all(watchers, id);
            let before = at_path(watchers[i], path).unwrap();
            &&& all.len() == watchers.len()
            &&& at_path(all[i], path) matches Some(after) && {
                &&& !after.watches.contains(id)
                &&& !after.partial_watches.contains(id)
                &&& other != id ==> after.watches.contains(other) == before.watches.contains(other)
                &&& other != id ==> after.partial_watches.contains(other) == before.partial_watches.contains(other)
                &&& after.config == before.config
                &&& after.hashes == before.hashes
            }
        }),
{
    lemma_unwatch_at_path(watchers[i], id, path, other);
}

/// Configuring announces the sources one after the other, each under its number.
pub proof fn lemma_sources_are_announced(
    watchers: Seq<WatcherModel>,
    sender: ResourceWatcherSender,
    n: nat,
    m: crate::resource::watcher::MsgView,
)
    requires
        n <= watchers.len(),
    ensures
        configure_all_msgs(watchers, sender, n).contains(m) <==> exists|i: int|
            0 <= i < n && (#[trigger] watchers[i]).configure_msgs(
                ResourceWatcherConfig { src_idx: SourceIndex::nested(seq![i as usize]), sender },
                0,
            ).contains(m),
        n > 0 ==> configure_all_msgs(watchers, sender, (n - 1) as nat).is_prefix_of(
            configure_all_msgs(watchers, sender, n),
        ),
    decreases n,
{
    if n > 0 {
        let rest = configure_all_msgs(watchers, sender, (n - 1) as nat);
        lemma_sources_are_announced(watchers, sender, (n - 1) as nat, m);
        let last = watchers[n - 1].configure_msgs(outermost(n - 1, sender), 0);
        assert(SourceIndex::nested(seq![(n - 1) as usize]) == SourceIndex::leaf((n - 1) as usize));
        let all = configure_all_msgs(watchers, sender, n);
        assert(all == rest + last);
        if all.contains(m) && !rest.contains(m) {
            let k = choose|k: int| 0 <= k < all.len() && all[k] == m;
            if k < rest.len() {
                assert(rest[k] == m);
            }
            assert(last[k - rest.len()] == m);
            assert(watchers[n - 1].configure_msgs(
                ResourceWatcherConfig { src_idx: SourceIndex::nested(seq![(n - 1) as usize]), sender },
                0,
            ).contains(m));
        }
        if rest.contains(m) {
            let k = choose|k: int| 0 <= k < rest.len() && rest[k] == m;
            assert(all[k] == m);
        }
        if last.contains(m) {
            let k = choose|k: int| 0 <= k < last.len() && last[k] == m;
            assert(all[rest.len() + k] == m);
        }
    }
}

} // verus!
