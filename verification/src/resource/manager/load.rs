//! The cache of loaded resources, and how its entries are loaded and updated.
//!
//! Resources, tasks and waiters are named by numbers. A resource that the cache does not hold itself
//! may be gone; which ones are still alive is told by the caller.
use vstd::prelude::*;

use crate::resource::manager::dependency::{DependencyGraph, DependencyGraphLayer};
use crate::resource::manager::task::TaskPriority;
use crate::resource::source::SourceIndex;
use crate::resource::{LoadErrorView, ResKey, ResourceLoadError};
use crate::util::table::IdSet;
use crate::util::text::i64_text;

verus! {

/// How urgent a requested load is.
#[derive(Debug, Clone, Copy, PartialEq, Eq, Structural)]
pub enum LoadPriority {
    /// The result is waited for.
    Immediate(i64),
    /// The result is needed some time later.
    Delayed(i64),
}

impl LoadPriority {
    /// Immediate, without preference.
    pub fn immediate() -> (r: Self)
        ensures
            r == LoadPriority::Immediate(0),
    {
        LoadPriority::Immediate(0)
    }

    /// Delayed, without preference.
    pub fn delayed() -> (r: Self)
        ensures
            r == LoadPriority::Delayed(0),
    {
        LoadPriority::Delayed(0)
    }

    /// The text of the priority.
    pub fn to_text(&self) -> (r: String)
        ensures
            r@ == (match *self {
                LoadPriority::Immediate(val) => "Immediate("@ + crate::util::text::signed_decimal(val as int)
                    + ")"@,
                LoadPriority::Delayed(val) => "Delayed("@ + crate::util::text::signed_decimal(val as int) + ")"@,
            }),
    {
        match self {
            LoadPriority::Immediate(val) => {
                let mut s = "Immediate(".to_owned();
                let n = i64_text(*val);
                s.append(n.as_str());
                s.append(")");
                s
            },
            LoadPriority::Delayed(val) => {
                let mut s = "Delayed(".to_owned();
                let n = i64_text(*val);
                s.append(n.as_str());
                s.append(")");
                s
            },
        }
    }
}

impl Default for LoadPriority {
    fn default() -> (r: Self)
        ensures
            r == LoadPriority::Immediate(0),
    {
        LoadPriority::immediate()
    }
}

impl From<LoadPriority> for TaskPriority {
    fn from(value: LoadPriority) -> (r: Self) {
        match value {
            LoadPriority::Immediate(val) => TaskPriority::Immediate(val),
            LoadPriority::Delayed(val) => TaskPriority::Delayed(val),
        }
    }
}

impl vstd::std_specs::convert::FromSpecImpl<LoadPriority> for TaskPriority {
    open spec fn obeys_from_spec() -> bool {
        true
    }

    open spec fn from_spec(value: LoadPriority) -> Self {
        match value {
            LoadPriority::Immediate(val) => TaskPriority::Immediate(val),
            LoadPriority::Delayed(val) => TaskPriority::Delayed(val),
        }
    }
}

/// What a load is done for.
#[derive(Debug, Clone, Copy, PartialEq, Eq, Structural)]
pub enum ResourceLoadOperation {
    /// A resource that is not there yet.
    Load,
    /// New contents for a resource that is there.
    Update,
}

/// The mathematical value of a [`SourceMetadata`].
pub struct MetadataView {
    pub hash: Option<Seq<char>>,
    pub source_idx: SourceIndex,
}

/// What is known of the data that a resource was loaded from last.
#[derive(Debug)]
pub struct SourceMetadata {
    pub hash: Option<String>,
    pub source_idx: SourceIndex,
}

impl View for SourceMetadata {
    type V = MetadataView;

    open spec fn view(&self) -> MetadataView {
        MetadataView {
            hash: match self.hash {
                Some(hash) => Some(hash@),
                None => None,
            },
            source_idx: self.source_idx,
        }
    }
}

impl Default for SourceMetadata {
    fn default() -> (r: Self)
        ensures
            r@ == (MetadataView { hash: None, source_idx: SourceIndex::greatest() }),
    {
        SourceMetadata { hash: None, source_idx: SourceIndex::max() }
    }
}

impl MetadataView {
    /// Whether data with this hash at this position replaces the present data: it is other data, and
    /// its source does not come after the present one.
    pub open spec fn valid_for_update(self, new_hash: Seq<char>, new_source_idx: SourceIndex) -> bool {
        self.hash != Some(new_hash) && new_source_idx.at_or_before(self.source_idx)
    }
}

impl SourceMetadata {
    /// Whether data with this hash at this position replaces the present data.
    pub fn valid_for_update(&self, new_hash: &String, new_source_idx: &SourceIndex) -> (r: bool)
        ensures
            r == self@.valid_for_update(new_hash@, *new_source_idx),
    {
        match &self.hash {
            Some(hash) => {
                if *hash == *new_hash {
                    return false;
                }
            },
            None => {},
        }
        new_source_idx.le(&self.source_idx)
    }
}

/// What a cached entry answers.
#[derive(Debug)]
pub enum EntryGetResult {
    /// The resource.
    Found(u64),
    /// Loading failed.
    Failed(ResourceLoadError),
    /// There was a resource, but it is gone.
    Expired,
}

/// The mathematical value of an [`EntryGetResult`].
pub enum GetView {
    Found(u64),
    Failed(LoadErrorView),
    Expired,
}

impl View for EntryGetResult {
    type V = GetView;

    open spec fn view(&self) -> GetView {
        match self {
            EntryGetResult::Found(resource) => GetView::Found(*resource),
            EntryGetResult::Failed(error) => GetView::Failed(error@),
            EntryGetResult::Expired => GetView::Expired,
        }
    }
}

/// The mathematical value of what loading gives.
pub open spec fn load_result(r: Result<u64, ResourceLoadError>) -> Result<u64, LoadErrorView> {
    match r {
        Ok(resource) => Ok(resource),
        Err(error) => Err(error@),
    }
}

impl GetView {
    /// The final result that the answer amounts to, `None` if the resource has to be loaded anew:
    /// because it is gone, or because it failed and failures are to be retried.
    pub open spec fn try_result(self, force_retry: bool) -> Option<Result<u64, LoadErrorView>> {
        match self {
            GetView::Found(resource) => Some(Ok(resource)),
            GetView::Failed(error) => if force_retry {
                None
            } else {
                Some(Err(error))
            },
            GetView::Expired => None,
        }
    }

    /// The answer for a resource that may be gone.
    pub open spec fn from_weak(weak: Option<u64>, live: Seq<u64>) -> GetView {
        match weak {
            Some(resource) if live.contains(resource) => GetView::Found(resource),
            _ => GetView::Expired,
        }
    }
}

/// The resource behind a reference that does not keep it alive.
fn upgrade(weak: &Option<u64>, live: &IdSet<u64>) -> (r: Option<u64>)
    ensures
        r == (match *weak {
            Some(resource) if live@.contains(resource) => Some(resource),
            _ => None,
        }),
{
    match weak {
        Some(resource) => if live.contains(resource) {
            Some(*resource)
        } else {
            None
        },
        None => None,
    }
}

impl EntryGetResult {
    fn from_weak(weak: &Option<u64>, live: &IdSet<u64>) -> (r: Self)
        ensures
            r@ == GetView::from_weak(*weak, live@),
    {
        match upgrade(weak, live) {
            Some(resource) => EntryGetResult::Found(resource),
            None => EntryGetResult::Expired,
        }
    }

    /// The final result that the answer amounts to, `None` if the resource has to be loaded anew.
    pub fn try_result(self, force_retry: bool) -> (r: Option<Result<u64, ResourceLoadError>>)
        ensures
            match r {
                Some(result) => self@.try_result(force_retry) == Some(load_result(result)),
                None => self@.try_result(force_retry) == None::<Result<u64, LoadErrorView>>,
            },
    {
        match self {
            EntryGetResult::Found(resource) => Some(Ok(resource)),
            EntryGetResult::Failed(error) => if force_retry {
                None
            } else {
                Some(Err(error))
            },
            EntryGetResult::Expired => None,
        }
    }
}

/// What a load task produces.
pub struct ResourceTaskData {
    /// The number that the value has as a resource of its own.
    pub resource: u64,
    /// The dependencies that were discovered.
    pub dependencies: DependencyGraphLayer,
}

/// What polling a load task gives: `None` while it is pending.
pub type LoadPolled = Option<Result<ResourceTaskData, ResourceLoadError>>;

/// Where an entry stands.
#[derive(Debug)]
pub enum CacheEntryState {
    /// A task is loading the resource; `wakers` is the list of those who wait.
    Loading { task: u64, wakers: u64 },
    /// The resource is kept alive until somebody takes it.
    Loaded { strong: u64 },
    /// The resource was handed out, and may be gone.
    Value { weak: Option<u64> },
    /// Loading failed.
    Error(ResourceLoadError),
    /// A task is updating the resource, which may be gone.
    Updating { weak: Option<u64>, task: u64, wakers: u64 },
}

/// The mathematical value of a [`CacheEntryState`].
pub enum StateView {
    Loading { task: u64, wakers: u64 },
    Loaded { strong: u64 },
    Value { weak: Option<u64> },
    Error(LoadErrorView),
    Updating { weak: Option<u64>, task: u64, wakers: u64 },
}

impl View for CacheEntryState {
    type V = StateView;

    open spec fn view(&self) -> StateView {
        match self {
            CacheEntryState::Loading { task, wakers } => StateView::Loading { task: *task, wakers: *wakers },
            CacheEntryState::Loaded { strong } => StateView::Loaded { strong: *strong },
            CacheEntryState::Value { weak } => StateView::Value { weak: *weak },
            CacheEntryState::Error(error) => StateView::Error(error@),
            CacheEntryState::Updating { weak, task, wakers } => StateView::Updating {
                weak: *weak,
                task: *task,
                wakers: *wakers,
            },
        }
    }
}

/// A cached resource, or one that is about to be.
#[derive(Debug)]
pub struct CacheEntryTyped {
    pub key: ResKey,
    /// The loader makes the resource without any data.
    pub is_virtual: bool,
    pub inner: CacheEntryState,
}

/// The mathematical value of a [`CacheEntryTyped`].
pub struct EntryView {
    pub is_virtual: bool,
    pub state: StateView,
}

impl View for CacheEntryTyped {
    type V = EntryView;

    open spec fn view(&self) -> EntryView {
        EntryView { is_virtual: self.is_virtual, state: self.inner@ }
    }
}

/// What became of a task that an update takes the place of.
#[derive(Debug, Clone, Copy, PartialEq, Eq, Structural)]
pub enum Replaced {
    /// There was none.
    Nothing,
    /// The load task is dropped.
    Dropped(u64),
    /// The previous update is cancelled, and waited for.
    Cancelled(u64),
}

impl EntryView {
    /// What the entry answers without being polled, `None` if it has to be polled.
    pub open spec fn try_get(self, live: Seq<u64>) -> Option<GetView> {
        match self.state {
            StateView::Value { weak } => Some(GetView::from_weak(weak, live)),
            StateView::Error(error) => Some(GetView::Failed(error)),
            _ => None,
        }
    }

    /// The entry with another state.
    pub open spec fn with(self, state: StateView) -> EntryView {
        EntryView { state, ..self }
    }

    /// The entry after a poll.
    pub open spec fn polled(self, result: Option<Result<u64, LoadErrorView>>) -> EntryView {
        match self.state {
            StateView::Loading { .. } => match result {
                Some(Ok(resource)) => self.with(StateView::Value { weak: Some(resource) }),
                Some(Err(error)) => self.with(StateView::Error(error)),
                None => self,
            },
            StateView::Loaded { strong } => self.with(StateView::Value { weak: Some(strong) }),
            _ => self,
        }
    }

    /// What a poll answers, `None` while the resource is not there yet.
    pub open spec fn poll_answer(self, result: Option<Result<u64, LoadErrorView>>, live: Seq<u64>) -> Option<
        GetView,
    > {
        match self.state {
            StateView::Loading { .. } => match result {
                Some(Ok(resource)) => Some(GetView::Found(resource)),
                Some(Err(error)) => Some(GetView::Failed(error)),
                None => None,
            },
            StateView::Loaded { strong } => Some(GetView::Found(strong)),
            StateView::Value { weak } => Some(GetView::from_weak(weak, live)),
            StateView::Error(error) => Some(GetView::Failed(error)),
            StateView::Updating { weak, .. } => match GetView::from_weak(weak, live) {
                GetView::Found(resource) => Some(GetView::Found(resource)),
                _ => None,
            },
        }
    }

    /// The list that a waiter joins, if the entry has one.
    pub open spec fn waiting_list(self) -> Option<u64> {
        match self.state {
            StateView::Loading { wakers, .. } => Some(wakers),
            StateView::Updating { wakers, .. } => Some(wakers),
            _ => None,
        }
    }

    /// Whether there is anything to update: not if loading failed, nor if the resource is gone.
    pub open spec fn can_update(self, live: Seq<u64>) -> bool {
        match self.state {
            StateView::Error(_) => false,
            StateView::Value { weak } => GetView::from_weak(weak, live) is Found,
            _ => true,
        }
    }

    /// The resource that is updated, if there is one already.
    pub open spec fn updated_resource(self) -> Option<u64> {
        match self.state {
            StateView::Loading { .. } => None,
            StateView::Loaded { strong } => Some(strong),
            StateView::Value { weak } => weak,
            StateView::Error(_) => None,
            StateView::Updating { weak, .. } => weak,
        }
    }

    /// The list of those who wait during an update by the given task: those who wait already, or a
    /// new list.
    pub open spec fn update_waiters(self, task: u64) -> u64 {
        match self.waiting_list() {
            Some(wakers) => wakers,
            None => task,
        }
    }

    /// The entry while the given task updates it.
    pub open spec fn start_update(self, task: u64) -> EntryView {
        self.with(
            StateView::Updating {
                weak: self.updated_resource(),
                task,
                wakers: self.update_waiters(task),
            },
        )
    }

    /// What becomes of the task that the entry had.
    pub open spec fn replaced_task(self) -> Replaced {
        match self.state {
            StateView::Loading { task, .. } => Replaced::Dropped(task),
            StateView::Updating { task, .. } => Replaced::Cancelled(task),
            _ => Replaced::Nothing,
        }
    }
}

/// The mathematical value of what polling a load task gives.
pub open spec fn polled_result(polled: LoadPolled) -> Option<Result<u64, LoadErrorView>> {
    match polled {
        Some(Ok(data)) => Some(Ok(data.resource)),
        Some(Err(error)) => Some(Err(error@)),
        None => None,
    }
}

/// What was polled, if anything came out, has proper dependencies.
pub open spec fn polled_wf(polled: LoadPolled) -> bool {
    polled matches Some(Ok(data)) ==> data.dependencies.wf()
}

/// The graph after a poll of an entry: the dependencies enter it when the load has succeeded.
pub open spec fn graph_after_poll(
    graph: crate::resource::manager::dependency::GraphView,
    entry: EntryView,
    polled: LoadPolled,
) -> crate::resource::manager::dependency::GraphView {
    match polled {
        Some(Ok(data)) => if entry.state is Loading {
            graph.set_dependencies(data.dependencies.subject(), data.dependencies.discovered())
        } else {
            graph
        },
        _ => graph,
    }
}

/// An update that was started for an entry.
#[derive(Debug)]
pub struct StartedUpdate {
    pub key: ResKey,
    pub is_virtual: bool,
    pub source_idx: SourceIndex,
    pub task: u64,
    pub wakers: u64,
    pub replaced: Replaced,
}

impl CacheEntryTyped {
    /// An entry that a task is loading.
    pub fn from_load_task(key: ResKey, is_virtual: bool, task: u64) -> (r: Self)
        ensures
            r.key == key,
            r@ == (EntryView { is_virtual, state: StateView::Loading { task, wakers: task } }),
    {
        CacheEntryTyped { key, is_virtual, inner: CacheEntryState::Loading { task, wakers: task } }
    }

    /// An entry in the given state.
    pub fn from_parts(key: ResKey, is_virtual: bool, inner: CacheEntryState) -> (r: Self)
        ensures
            r.key == key,
            r@ == (EntryView { is_virtual, state: inner@ }),
    {
        CacheEntryTyped { key, is_virtual, inner }
    }

    /// What the entry answers without being polled, `None` if it has to be polled.
    pub fn try_get(&self, live: &IdSet<u64>) -> (r: Option<EntryGetResult>)
        ensures
            match r {
                Some(result) => self@.try_get(live@) == Some(result@),
                None => self@.try_get(live@) == None::<GetView>,
            },
    {
        match &self.inner {
            CacheEntryState::Value { weak } => Some(EntryGetResult::from_weak(weak, live)),
            CacheEntryState::Error(error) => Some(EntryGetResult::Failed(error.clone())),
            _ => None,
        }
    }

    /// The list that a waiter joins, if the entry has one.
    pub fn waiting_list(&self) -> (r: Option<u64>)
        ensures
            r == self@.waiting_list(),
    {
        match &self.inner {
            CacheEntryState::Loading { wakers, .. } => Some(*wakers),
            CacheEntryState::Updating { wakers, .. } => Some(*wakers),
            _ => None,
        }
    }

    /// Advances the entry. `polled` is what polling its load task gave, if it is being loaded; an
    /// update task never ends before the entry has left its state.
    pub fn poll(&mut self, polled: LoadPolled, live: &IdSet<u64>, graph: &mut DependencyGraph) -> (r: Option<
        EntryGetResult,
    >)
        requires
            polled_wf(polled),
            old(graph).wf(),
        ensures
            final(graph).wf(),
            final(graph)@ == graph_after_poll(old(graph)@, old(self)@, polled),
            final(self).key == old(self).key,
            final(self)@ == old(self)@.polled(polled_result(polled)),
            match r {
                Some(result) => old(self)@.poll_answer(polled_result(polled), live@) == Some(result@),
                None => old(self)@.poll_answer(polled_result(polled), live@) == None::<GetView>,
            },
    {
        match &self.inner {
            CacheEntryState::Loading { .. } => match polled {
                Some(Ok(data)) => {
                    let resource: u64 = data.resource;
                    data.dependencies.apply(graph);
                    self.inner = CacheEntryState::Value { weak: Some(resource) };
                    Some(EntryGetResult::Found(resource))
                },
                Some(Err(error)) => {
                    self.inner = CacheEntryState::Error(error.clone());
                    Some(EntryGetResult::Failed(error))
                },
                None => None,
            },
            CacheEntryState::Loaded { strong } => {
                let strong: u64 = *strong;
                self.inner = CacheEntryState::Value { weak: Some(strong) };
                Some(EntryGetResult::Found(strong))
            },
            CacheEntryState::Value { weak } => Some(EntryGetResult::from_weak(weak, live)),
            CacheEntryState::Error(error) => Some(EntryGetResult::Failed(error.clone())),
            CacheEntryState::Updating { weak, .. } => match upgrade(weak, live) {
                Some(resource) => Some(EntryGetResult::Found(resource)),
                None => None,
            },
        }
    }

    /// Lets a task update the entry, if there is anything to update.
    pub fn start_update(&mut self, source_idx: &SourceIndex, task: u64, live: &IdSet<u64>) -> (r: Option<
        StartedUpdate,
    >)
        ensures
            final(self).key == old(self).key,
            r.is_some() == old(self)@.can_update(live@),
            r.is_none() ==> final(self)@ == old(self)@,
            r.is_some() ==> {
                &&& final(self)@ == old(self)@.start_update(task)
                &&& r.unwrap() == started(old(self).key, old(self)@, *source_idx, task)
            },
    {
        let (weak, replaced, wakers): (Option<u64>, Replaced, u64) = match &self.inner {
            CacheEntryState::Loading { task: previous, wakers } => (None, Replaced::Dropped(*previous), *wakers),
            CacheEntryState::Loaded { strong } => (Some(*strong), Replaced::Nothing, task),
            CacheEntryState::Value { weak } => {
                match upgrade(weak, live) {
                    Some(_) => (*weak, Replaced::Nothing, task),
                    None => return None,
                }
            },
            CacheEntryState::Error(_) => return None,
            CacheEntryState::Updating { weak, task: previous, wakers } => (
                *weak,
                Replaced::Cancelled(*previous),
                *wakers,
            ),
        };
        self.inner = CacheEntryState::Updating { weak, task, wakers };
        Some(
            StartedUpdate {
                key: self.key,
                is_virtual: self.is_virtual,
                source_idx: source_idx.clone(),
                task,
                wakers,
                replaced,
            },
        )
    }
}

/// The record of an update that was started for an entry.
pub open spec fn started(key: ResKey, entry: EntryView, source_idx: SourceIndex, task: u64) -> StartedUpdate {
    StartedUpdate {
        key,
        is_virtual: entry.is_virtual,
        source_idx,
        task,
        wakers: entry.update_waiters(task),
        replaced: entry.replaced_task(),
    }
}

/// A load that succeeded is answered from then on, as long as the resource lives.
pub proof fn lemma_loaded_is_answered(entry: EntryView, resource: u64, live: Seq<u64>)
    requires
        entry.state is Loading,
        live.contains(resource),
    ensures
        entry.polled(Some(Ok(resource))).try_get(live) == Some(GetView::Found(resource)),
{
}

/// A load that failed is answered with its error from then on, and is never updated.
pub proof fn lemma_failed_is_answered(entry: EntryView, error: LoadErrorView, live: Seq<u64>)
    requires
        entry.state is Loading,
    ensures
        entry.polled(Some(Err(error))).try_get(live) == Some(GetView::Failed(error)),
        !entry.polled(Some(Err(error))).can_update(live),
{
}

/// An update never takes a resource away from those who poll for it: while it runs, what was
/// there is still answered.
pub proof fn lemma_update_keeps_answer(entry: EntryView, task: u64, resource: u64, live: Seq<u64>)
    requires
        entry.can_update(live),
        live.contains(resource),
        entry.state is Value || entry.state is Loaded || entry.state is Updating,
        entry.poll_answer(None, live) == Some(GetView::Found(resource)),
    ensures
        entry.start_update(task).poll_answer(None, live) == Some(GetView::Found(resource)),
{
}

/// A resource that was handed out is found if and only if it still lives, and is gone otherwise.
pub proof fn lemma_found_while_alive(weak: Option<u64>, live: Seq<u64>, resource: u64)
    ensures
        GetView::from_weak(weak, live) == GetView::Found(resource) <==> weak == Some(resource) && live.contains(
            resource,
        ),
        weak == Some(resource) && !live.contains(resource) ==> GetView::from_weak(weak, live) is Expired,
        weak is None ==> GetView::from_weak(weak, live) is Expired,
        !(GetView::from_weak(weak, live) is Failed),
{
}

/// An answer is final if it is a resource, or a failure that is not to be retried; a resource that is
/// gone is always loaded anew.
pub proof fn lemma_final_answers(answer: GetView, force_retry: bool)
    ensures
        answer matches GetView::Found(resource) ==> answer.try_result(force_retry) == Some(
            Ok::<u64, LoadErrorView>(resource),
        ),
        answer matches GetView::Failed(error) ==> answer.try_result(false) == Some(Err::<u64, LoadErrorView>(error)),
        answer is Failed ==> answer.try_result(true) is None,
        answer is Expired ==> answer.try_result(force_retry) is None,
{
}

/// What a poll answers: the resource that a load has just given, that is kept, or that was handed out
/// and lives; the error of a load that has just failed or had failed before; that the resource is gone,
/// if it was handed out, does not live and is not being updated; and nothing as long as a load has
/// given nothing, or an update has no resource to show.
pub proof fn lemma_poll_answers(
    entry: EntryView,
    result: Option<Result<u64, LoadErrorView>>,
    live: Seq<u64>,
    resource: u64,
    error: LoadErrorView,
)
    ensures
        ({
            let answer = entry.poll_answer(result, live);
            let lives = match entry.state {
                StateView::Value { weak } => weak is Some && live.contains(weak.unwrap()),
                StateView::Updating { weak, .. } => weak is Some && live.contains(weak.unwrap()),
                _ => false,
            };
            &&& answer == Some(GetView::Found(resource)) <==> {
                ||| entry.state is Loading && result == Some(Ok::<u64, LoadErrorView>(resource))
                ||| entry.state == (StateView::Loaded { strong: resource })
                ||| lives && entry.state == (StateView::Value { weak: Some(resource) })
                ||| lives && (entry.state matches StateView::Updating { weak, .. } && weak == Some(resource))
            }
            &&& answer == Some(GetView::Failed(error)) <==> {
                ||| entry.state is Loading && result == Some(Err::<u64, LoadErrorView>(error))
                ||| entry.state == StateView::Error(error)
            }
            &&& answer == Some(GetView::Expired) <==> entry.state is Value && !lives
            &&& answer is None <==> {
                ||| entry.state is Loading && result is None
                ||| entry.state is Updating && !lives
            }
        }),
{
}

/// What a poll leaves: a load that has given nothing, and an entry that is neither loading nor kept,
/// stay; a resource that is answered for the first time is handed out, and an error stays with the
/// entry. Whether the loader needs data never changes.
pub proof fn lemma_poll_leaves(entry: EntryView, result: Option<Result<u64, LoadErrorView>>)
    ensures
        ({
            let after = entry.polled(result);
            &&& after.is_virtual == entry.is_virtual
            &&& !(entry.state is Loading) && !(entry.state is Loaded) ==> after == entry
            &&& entry.state is Loading && result is None ==> after == entry
            &&& entry.state is Loading ==> (result matches Some(Err(error)) ==> after.state == StateView::Error(error))
            &&& entry.state is Loading ==> (result matches Some(Ok(resource)) ==> after.state == (StateView::Value {
                weak: Some(resource),
            }))
            &&& entry.state matches StateView::Loaded { strong } ==> after.state == (StateView::Value {
                weak: Some(strong),
            })
        }),
{
}

/// What an entry answers without being polled is what a poll would answer, and asking does not change
/// it; an entry is polled only if it is loading, kept or being updated.
pub proof fn lemma_ready_answers(entry: EntryView, result: Option<Result<u64, LoadErrorView>>, live: Seq<u64>)
    ensures
        entry.try_get(live) is Some <==> entry.state is Value || entry.state is Error,
        entry.try_get(live) is Some ==> entry.try_get(live) == entry.poll_answer(result, live) && entry.polled(
            result,
        ) == entry,
{
}

/// Those who wait for an entry wait for its load or its update, in the list that it names.
pub proof fn lemma_who_is_waited_for(entry: EntryView, list: u64)
    ensures
        entry.waiting_list() == Some(list) <==> {
            ||| entry.state matches StateView::Loading { wakers, .. } && wakers == list
            ||| entry.state matches StateView::Updating { wakers, .. } && wakers == list
        },
{
}

/// What a load depends on enters the graph if and only if the load has just succeeded; then exactly
/// that is what the loaded key depends on.
pub proof fn lemma_dependencies_enter_with_success(
    graph: crate::resource::manager::dependency::GraphView,
    entry: EntryView,
    polled: LoadPolled,
    a: ResKey,
    b: ResKey,
)
    ensures
        ({
            let after = graph_after_poll(graph, entry, polled);
            match polled {
                Some(Ok(data)) => if entry.state is Loading {
                    after.edges.contains((a, b)) <==> if a == data.dependencies.subject() {
                        data.dependencies.discovered().contains(b)
                    } else {
                        graph.edges.contains((a, b))
                    }
                } else {
                    after == graph
                },
                _ => after == graph,
            }
        }),
{
}

/// The task of a load is as urgent as the load, and never an update.
pub proof fn lemma_load_is_as_urgent(a: LoadPriority, val: i64)
    ensures
        a == LoadPriority::Immediate(val) ==> <TaskPriority as vstd::std_specs::convert::FromSpec<LoadPriority>>::from_spec(
            a,
        ) == TaskPriority::Immediate(val),
        a == LoadPriority::Delayed(val) ==> <TaskPriority as vstd::std_specs::convert::FromSpec<LoadPriority>>::from_spec(
            a,
        ) == TaskPriority::Delayed(val),
{
}

/// Data replaces the present data if and only if it is other data and its source does not come after
/// the present one.
pub proof fn lemma_replacing_data(present: MetadataView, hash: Seq<char>, source_idx: SourceIndex)
    ensures
        present.valid_for_update(hash, source_idx) <==> present.hash != Some(hash)
            && !present.source_idx.before(source_idx),
{
    crate::resource::source::lemma_index_order_irreflexive(source_idx);
    if source_idx != present.source_idx {
        crate::resource::source::lemma_index_order_total(source_idx, present.source_idx);
    }
}

/// An update keeps what an entry has: the resource, those who wait for it, and whether its loader
/// needs data. A load that it takes the place of is dropped, an earlier update is cancelled.
pub proof fn lemma_update_takes_over(entry: EntryView, task: u64, live: Seq<u64>)
    ensures
        entry.start_update(task).is_virtual == entry.is_virtual,
        entry.start_update(task).updated_resource() == entry.updated_resource(),
        entry.start_update(task).state matches StateView::Updating { task: t, .. } && t == task,
        entry.waiting_list() matches Some(list) ==> entry.start_update(task).waiting_list() == Some(list),
        entry.waiting_list() is None ==> entry.start_update(task).waiting_list() == Some(task),
        entry.start_update(task).can_update(live),
        entry.start_update(task).replaced_task() == Replaced::Cancelled(task),
        entry.state matches StateView::Loading { task: former, .. } ==> entry.replaced_task() == Replaced::Dropped(
            former,
        ),
        entry.state matches StateView::Updating { task: former, .. } ==> entry.replaced_task() == Replaced::Cancelled(
            former,
        ),
        entry.state is Loaded || entry.state is Value || entry.state is Error ==> entry.replaced_task()
            == Replaced::Nothing,
        entry.state is Loading ==> entry.updated_resource() is None,
        entry.state matches StateView::Loaded { strong } ==> entry.updated_resource() == Some(strong),
        entry.state matches StateView::Value { weak } ==> entry.updated_resource() == weak,
{
}

/// What loading and polling give is seen as what it is: the same resource, or the same error.
pub proof fn lemma_results_are_seen(r: Result<u64, ResourceLoadError>, polled: LoadPolled)
    ensures
        r matches Ok(resource) ==> load_result(r) == Ok::<u64, LoadErrorView>(resource),
        r matches Err(error) ==> load_result(r) == Err::<u64, LoadErrorView>(error@),
        polled is None <==> polled_result(polled) is None,
        polled matches Some(Ok(data)) ==> polled_result(polled) == Some(Ok::<u64, LoadErrorView>(data.resource)),
        polled matches Some(Err(error)) ==> polled_result(polled) == Some(Err::<u64, LoadErrorView>(error@)),
{
}

} // verus!
