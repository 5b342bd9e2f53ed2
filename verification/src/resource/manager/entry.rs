//! Cached resources of which every request names the type.
//!
//! Resources, types, tasks and waiters are named by numbers. An entry does not keep its resource
//! alive; which resources are still alive is told by the caller.
use vstd::prelude::*;

use crate::resource::id::ResourceId;
use crate::resource::manager::load::{EntryGetResult, GetView};
use crate::resource::source::{SealedResourceDataSource, SealedView, SourceIndex};
use crate::resource::{LoadErrorView, ResourceLoadError};
use crate::util::table::IdSet;
use crate::util::waker::MultiWaker;

verus! {

/// The mathematical value of a [`LoadOutcome`].
pub struct OutcomeView {
    pub result: Result<(u64, Seq<char>), LoadErrorView>,
    pub source_idx: SourceIndex,
}

/// What a finished load task hands over: the resource and the hash of its data, and where that data
/// is from.
#[derive(Debug)]
pub struct LoadOutcome {
    pub result: Result<(u64, String), ResourceLoadError>,
    pub source_idx: SourceIndex,
}

impl View for LoadOutcome {
    type V = OutcomeView;

    open spec fn view(&self) -> OutcomeView {
        OutcomeView {
            result: match self.result {
                Ok((resource, hash)) => Ok((resource, hash@)),
                Err(error) => Err(error@),
            },
            source_idx: self.source_idx,
        }
    }
}

/// The mathematical value of what polling a load task gives.
pub open spec fn outcome_option(polled: Option<LoadOutcome>) -> Option<OutcomeView> {
    match polled {
        Some(outcome) => Some(outcome@),
        None => None,
    }
}

/// The mathematical value of a [`CacheEntryStateValue`].
pub struct ValueView {
    pub resource: u64,
    pub resource_type: u64,
    pub hash: Seq<char>,
    pub source_idx: SourceIndex,
}

/// A resource that was loaded, and what it was loaded from last.
#[derive(Debug)]
pub struct CacheEntryStateValue {
    pub resource: u64,
    pub resource_type: u64,
    pub hash: String,
    pub source_idx: SourceIndex,
}

impl View for CacheEntryStateValue {
    type V = ValueView;

    open spec fn view(&self) -> ValueView {
        ValueView {
            resource: self.resource,
            resource_type: self.resource_type,
            hash: self.hash@,
            source_idx: self.source_idx,
        }
    }
}

/// Where an entry stands.
pub enum CacheEntryState {
    /// A task is loading the resource.
    Loading { task: u64, resource_type: u64, wakers: MultiWaker },
    /// The resource was loaded, and may be gone.
    CachedValue(CacheEntryStateValue),
    /// The resource is being updated, and may be gone.
    Updating(CacheEntryStateValue),
    /// Loading failed.
    CachedError(ResourceLoadError),
}

/// The mathematical value of a [`CacheEntryState`].
pub enum StateView {
    Loading { task: u64, resource_type: u64, waiters: Seq<u64> },
    CachedValue(ValueView),
    Updating(ValueView),
    CachedError(LoadErrorView),
}

impl View for CacheEntryState {
    type V = StateView;

    open spec fn view(&self) -> StateView {
        match self {
            CacheEntryState::Loading { task, resource_type, wakers } => StateView::Loading {
                task: *task,
                resource_type: *resource_type,
                waiters: wakers@,
            },
            CacheEntryState::CachedValue(value) => StateView::CachedValue(value@),
            CacheEntryState::Updating(value) => StateView::Updating(value@),
            CacheEntryState::CachedError(error) => StateView::CachedError(error@),
        }
    }
}

/// What is to be done for an update.
#[derive(Debug, Clone, Copy, PartialEq, Eq, Structural)]
pub enum EntryUpdate {
    /// Nothing.
    Skip,
    /// The entry has nothing to update, and is to leave the cache.
    Evict,
    /// The resource is to be given new contents.
    Run(u64),
}

impl StateView {
    /// The task to poll for a request of the given type, if there is one.
    pub open spec fn awaited_task(self, requested: u64) -> Option<u64> {
        match self {
            StateView::Loading { task, resource_type, .. } => if resource_type == requested {
                Some(task)
            } else {
                None
            },
            _ => None,
        }
    }

    /// The state that a finished load leads to.
    pub open spec fn loaded(outcome: OutcomeView, resource_type: u64) -> StateView {
        match outcome.result {
            Ok((resource, hash)) => StateView::CachedValue(
                ValueView { resource, resource_type, hash, source_idx: outcome.source_idx },
            ),
            Err(error) => StateView::CachedError(error),
        }
    }

    /// The state after a request of the given type.
    pub open spec fn polled(self, requested: u64, outcome: Option<OutcomeView>) -> StateView {
        match outcome {
            Some(o) if self.awaited_task(requested).is_some() => StateView::loaded(o, requested),
            _ => self,
        }
    }

    /// The answer to a request of the given type, `None` while the task is pending.
    pub open spec fn answer(self, requested: u64, outcome: Option<OutcomeView>, live: Seq<u64>) -> Option<
        GetView,
    > {
        match self {
            StateView::Loading { resource_type, .. } => if resource_type != requested {
                Some(GetView::Failed(LoadErrorView::TypeMismatch { requested, actual: resource_type }))
            } else {
                match outcome {
                    Some(o) => Some(
                        match o.result {
                            Ok((resource, _)) => GetView::Found(resource),
                            Err(error) => GetView::Failed(error),
                        },
                    ),
                    None => None,
                }
            },
            StateView::CachedValue(value) | StateView::Updating(value) => Some(
                if !live.contains(value.resource) {
                    GetView::Expired
                } else if value.resource_type != requested {
                    GetView::Failed(LoadErrorView::TypeMismatch { requested, actual: value.resource_type })
                } else {
                    GetView::Found(value.resource)
                },
            ),
            StateView::CachedError(error) => Some(GetView::Failed(error)),
        }
    }

    /// The position up to which sources are to be watched after a request.
    pub open spec fn watch_after(self, requested: u64, outcome: Option<OutcomeView>) -> Option<SourceIndex> {
        match outcome {
            Some(o) if self.awaited_task(requested).is_some() => Some(o.source_idx),
            _ => None,
        }
    }

    /// The hash of the data that the resource was loaded from last.
    pub open spec fn hash(self) -> Option<Seq<char>> {
        match self {
            StateView::CachedValue(value) | StateView::Updating(value) => Some(value.hash),
            _ => None,
        }
    }

    /// What an update from a position is to do. One from a source after the present one counts only
    /// if precedence is to be ignored.
    pub open spec fn update(self, new_idx: SourceIndex, ignore_priority: bool) -> EntryUpdate {
        match self {
            StateView::CachedValue(value) => if ignore_priority || new_idx.at_or_before(value.source_idx) {
                EntryUpdate::Run(value.resource)
            } else {
                EntryUpdate::Skip
            },
            StateView::CachedError(_) => EntryUpdate::Evict,
            _ => EntryUpdate::Skip,
        }
    }

    /// The state once an update is begun.
    pub open spec fn updating(self, new_idx: SourceIndex, ignore_priority: bool) -> StateView {
        match self {
            StateView::CachedValue(value) => if self.update(new_idx, ignore_priority) is Run {
                StateView::Updating(value)
            } else {
                self
            },
            _ => self,
        }
    }

    /// The state after an update from the given data.
    pub open spec fn finalized(self, source: SealedView) -> StateView {
        match self {
            StateView::Updating(value) => StateView::CachedValue(
                ValueView { hash: source.hash, source_idx: source.idx, ..value },
            ),
            _ => self,
        }
    }

    /// The state after an update that changed nothing.
    pub open spec fn abandoned(self) -> StateView {
        match self {
            StateView::Updating(value) => StateView::CachedValue(value),
            _ => self,
        }
    }
}

/// The answer to a request, and what follows from it for watching.
#[derive(Debug)]
pub struct EntryPolled {
    pub answer: Option<EntryGetResult>,
    pub watch: Option<SourceIndex>,
}

/// The mathematical value of an optional answer.
pub open spec fn answer_option(answer: Option<EntryGetResult>) -> Option<GetView> {
    match answer {
        Some(a) => Some(a@),
        None => None,
    }
}

impl CacheEntryState {
    /// A task with the given number is loading a resource of the given type.
    pub fn from_task(task: u64, resource_type: u64) -> (r: Self)
        ensures
            r@ == (StateView::Loading { task, resource_type, waiters: Seq::empty() }),
    {
        CacheEntryState::Loading { task, resource_type, wakers: MultiWaker::new() }
    }

    /// The state that a finished load leads to.
    pub fn from_outcome(outcome: LoadOutcome, resource_type: u64) -> (r: Self)
        ensures
            r@ == StateView::loaded(outcome@, resource_type),
    {
        match outcome.result {
            Ok((resource, hash)) => CacheEntryState::CachedValue(
                CacheEntryStateValue { resource, resource_type, hash, source_idx: outcome.source_idx },
            ),
            Err(error) => CacheEntryState::CachedError(error),
        }
    }

    /// The task to poll for a request of the given type, if there is one.
    pub fn awaited_task(&self, requested: u64) -> (r: Option<u64>)
        ensures
            r == self@.awaited_task(requested),
    {
        match self {
            CacheEntryState::Loading { task, resource_type, .. } => if *resource_type == requested {
                Some(*task)
            } else {
                None
            },
            _ => None,
        }
    }

    /// Answers a request of the given type. `outcome` is what polling the awaited task gave.
    pub fn poll(self, requested: u64, outcome: Option<LoadOutcome>, live: &IdSet<u64>) -> (r: (
        Self,
        EntryPolled,
    ))
        ensures
            r.0@ == self@.polled(requested, outcome_option(outcome)),
            answer_option(r.1.answer) == self@.answer(requested, outcome_option(outcome), live@),
            r.1.watch == self@.watch_after(requested, outcome_option(outcome)),
    {
        match self {
            CacheEntryState::Loading { task, resource_type, wakers } => {
                if resource_type != requested {
                    let error = ResourceLoadError::from_mismatch(requested, resource_type);
                    return (
                        CacheEntryState::Loading { task, resource_type, wakers },
                        EntryPolled { answer: Some(EntryGetResult::Failed(error)), watch: None },
                    );
                }
                match outcome {
                    Some(outcome) => {
                        let watch = Some(outcome.source_idx.clone());
                        let answer = match &outcome.result {
                            Ok((resource, _)) => EntryGetResult::Found(*resource),
                            Err(error) => EntryGetResult::Failed(error.clone()),
                        };
                        (
                            CacheEntryState::from_outcome(outcome, requested),
                            EntryPolled { answer: Some(answer), watch },
                        )
                    },
                    None => (
                        CacheEntryState::Loading { task, resource_type, wakers },
                        EntryPolled { answer: None, watch: None },
                    ),
                }
            },
            CacheEntryState::CachedValue(value) => {
                let answer = value.answer(requested, live);
                (CacheEntryState::CachedValue(value), EntryPolled { answer: Some(answer), watch: None })
            },
            CacheEntryState::Updating(value) => {
                let answer = value.answer(requested, live);
                (CacheEntryState::Updating(value), EntryPolled { answer: Some(answer), watch: None })
            },
            CacheEntryState::CachedError(error) => {
                let answer = EntryGetResult::Failed(error.clone());
                (CacheEntryState::CachedError(error), EntryPolled { answer: Some(answer), watch: None })
            },
        }
    }

    /// Adds somebody who waits for the task, if there is one.
    pub fn insert_waker(&mut self, waiter: u64)
        ensures
            final(self)@ == (match old(self)@ {
                StateView::Loading { task, resource_type, waiters } => StateView::Loading {
                    task,
                    resource_type,
                    waiters: waiters.push(waiter),
                },
                other => other,
            }),
    {
        match self {
            CacheEntryState::Loading { wakers, .. } => {
                wakers.push(waiter);
            },
            _ => {},
        }
    }

    /// Begins an update from the given position.
    pub fn update(self, new_idx: &SourceIndex, ignore_priority: bool) -> (r: (Self, EntryUpdate))
        ensures
            r.0@ == self@.updating(*new_idx, ignore_priority),
            r.1 == self@.update(*new_idx, ignore_priority),
    {
        match self {
            CacheEntryState::CachedValue(value) => {
                if ignore_priority || new_idx.le(&value.source_idx) {
                    let resource: u64 = value.resource;
                    (CacheEntryState::Updating(value), EntryUpdate::Run(resource))
                } else {
                    (CacheEntryState::CachedValue(value), EntryUpdate::Skip)
                }
            },
            CacheEntryState::CachedError(error) => (CacheEntryState::CachedError(error), EntryUpdate::Evict),
            other => (other, EntryUpdate::Skip),
        }
    }

    /// Ends an update that took its data from the given place.
    pub fn finalize_update(self, source: SealedResourceDataSource) -> (r: Self)
        ensures
            r@ == self@.finalized(source@),
    {
        match self {
            CacheEntryState::Updating(value) => CacheEntryState::CachedValue(
                CacheEntryStateValue {
                    resource: value.resource,
                    resource_type: value.resource_type,
                    hash: source.hash,
                    source_idx: source.idx,
                },
            ),
            other => other,
        }
    }

    /// Ends an update that changed nothing.
    pub fn abandon_update(self) -> (r: Self)
        ensures
            r@ == self@.abandoned(),
    {
        match self {
            CacheEntryState::Updating(value) => CacheEntryState::CachedValue(value),
            other => other,
        }
    }

    /// The hash of the data that the resource was loaded from last.
    pub fn hash(&self) -> (r: Option<&String>)
        ensures
            match r {
                Some(hash) => self@.hash() == Some(hash@),
                None => self@.hash() == None::<Seq<char>>,
            },
    {
        match self {
            CacheEntryState::CachedValue(value) => Some(&value.hash),
            CacheEntryState::Updating(value) => Some(&value.hash),
            _ => None,
        }
    }
}

impl CacheEntryStateValue {
    fn answer(&self, requested: u64, live: &IdSet<u64>) -> (r: EntryGetResult)
        ensures
            r@ == (if !live@.contains(self.resource) {
                GetView::Expired
            } else if self.resource_type != requested {
                GetView::Failed(LoadErrorView::TypeMismatch { requested, actual: self.resource_type })
            } else {
                GetView::Found(self.resource)
            }),
    {
        if !live.contains(&self.resource) {
            EntryGetResult::Expired
        } else if self.resource_type != requested {
            EntryGetResult::Failed(ResourceLoadError::from_mismatch(requested, self.resource_type))
        } else {
            EntryGetResult::Found(self.resource)
        }
    }
}

/// The mathematical value of a [`CacheEntry`].
pub struct EntryView {
    pub id: ResourceId,
    pub state: StateView,
}

/// A cached resource, or one that is about to be.
pub struct CacheEntry {
    pub id: ResourceId,
    pub state: CacheEntryState,
}

impl View for CacheEntry {
    type V = EntryView;

    open spec fn view(&self) -> EntryView {
        EntryView { id: self.id, state: self.state@ }
    }
}

impl CacheEntry {
    /// An entry whose resource is being loaded.
    pub fn from_task(id: ResourceId, task: u64, resource_type: u64) -> (r: Self)
        ensures
            r@ == (EntryView {
                id,
                state: StateView::Loading { task, resource_type, waiters: Seq::empty() },
            }),
    {
        CacheEntry { id, state: CacheEntryState::from_task(task, resource_type) }
    }

    /// Answers a request of the given type.
    pub fn poll(self, requested: u64, outcome: Option<LoadOutcome>, live: &IdSet<u64>) -> (r: (
        Self,
        EntryPolled,
    ))
        ensures
            r.0@ == (EntryView { state: self@.state.polled(requested, outcome_option(outcome)), ..self@ }),
            answer_option(r.1.answer) == self@.state.answer(requested, outcome_option(outcome), live@),
            r.1.watch == self@.state.watch_after(requested, outcome_option(outcome)),
    {
        let (state, polled) = self.state.poll(requested, outcome, live);
        (CacheEntry { id: self.id, state }, polled)
    }

    /// Somebody begins to wait for the entry.
    pub fn wait(&mut self, waiter: u64)
        ensures
            final(self)@.id == old(self)@.id,
            final(self)@.state == (match old(self)@.state {
                StateView::Loading { task, resource_type, waiters } => StateView::Loading {
                    task,
                    resource_type,
                    waiters: waiters.push(waiter),
                },
                other => other,
            }),
    {
        self.state.insert_waker(waiter);
    }
}

/// Once loading has succeeded, every later request of the type is answered with the resource for as
/// long as it lives, also while it is being updated.
pub proof fn lemma_loaded_is_answered(
    state: StateView,
    requested: u64,
    outcome: OutcomeView,
    live: Seq<u64>,
    new_idx: SourceIndex,
    ignore_priority: bool,
)
    requires
        state.awaited_task(requested).is_some(),
        outcome.result.is_ok(),
        live.contains(outcome.result->Ok_0.0),
    ensures
        ({
            let after = state.polled(requested, Some(outcome));
            let found = Some(GetView::Found(outcome.result->Ok_0.0));
            &&& state.answer(requested, Some(outcome), live) == found
            &&& after.answer(requested, None, live) == found
            &&& after.updating(new_idx, ignore_priority).answer(requested, None, live) == found
        }),
{
}

/// Once loading has failed, every later request is answered with the failure, and an update evicts
/// the entry.
pub proof fn lemma_failed_is_answered(
    state: StateView,
    requested: u64,
    outcome: OutcomeView,
    later: u64,
    live: Seq<u64>,
    new_idx: SourceIndex,
    ignore_priority: bool,
)
    requires
        state.awaited_task(requested).is_some(),
        outcome.result.is_err(),
    ensures
        ({
            let after = state.polled(requested, Some(outcome));
            &&& after.answer(later, None, live) == Some(GetView::Failed(outcome.result->Err_0))
            &&& after.update(new_idx, ignore_priority) == EntryUpdate::Evict
        }),
{
}

/// An update that is begun and abandoned leaves the state as it was; one that is finalized keeps the
/// resource and takes over hash and position. While one runs, no other begins.
pub proof fn lemma_update_ends(
    state: StateView,
    new_idx: SourceIndex,
    ignore_priority: bool,
    source: SealedView,
    other_idx: SourceIndex,
    other_ignore: bool,
)
    requires
        state.update(new_idx, ignore_priority) is Run,
    ensures
        ({
            let begun = state.updating(new_idx, ignore_priority);
            &&& begun.abandoned() == state
            &&& begun.update(other_idx, other_ignore) == EntryUpdate::Skip
            &&& begun.finalized(source).hash() == Some(source.hash)
            &&& begun.finalized(source).update(source.idx, false) == state.update(new_idx, ignore_priority)
        }),
{
}

/// What a request is answered. A resource that was loaded is found if it lives and is of the requested
/// type; it is gone if it does not live, whatever was requested. A resource of another type, loaded or
/// being loaded, is a mismatch that names both types. A failed load answers with its error. A load of
/// the requested type answers what it gives, and nothing while it gives nothing.
pub proof fn lemma_requests_are_answered(
    state: StateView,
    requested: u64,
    outcome: Option<OutcomeView>,
    live: Seq<u64>,
    resource: u64,
)
    ensures
        ({
            let answer = state.answer(requested, outcome, live);
            match state {
                StateView::Loading { resource_type, .. } => {
                    &&& resource_type != requested ==> answer == Some(
                        GetView::Failed(LoadErrorView::TypeMismatch { requested, actual: resource_type }),
                    )
                    &&& resource_type == requested ==> (answer is None <==> outcome is None)
                    &&& resource_type == requested ==> (answer == Some(GetView::Found(resource)) <==> (
                    outcome matches Some(o) && (o.result matches Ok(loaded) && loaded.0 == resource)))
                    &&& resource_type == requested ==> (outcome matches Some(o) ==> (o.result matches Err(error)
                        ==> answer == Some(GetView::Failed(error))))
                },
                StateView::CachedError(error) => answer == Some(GetView::Failed(error)),
                StateView::CachedValue(value) | StateView::Updating(value) => {
                    &&& answer == Some(GetView::Found(resource)) <==> value.resource == resource && live.contains(
                        resource,
                    ) && value.resource_type == requested
                    &&& answer == Some(GetView::Expired) <==> !live.contains(value.resource)
                    &&& live.contains(value.resource) && value.resource_type != requested ==> answer == Some(
                        GetView::Failed(LoadErrorView::TypeMismatch { requested, actual: value.resource_type }),
                    )
                },
            }
        }),
{
}

/// What a request leaves. A load of the requested type that has ended leaves its resource, of that
/// type, with the hash and the position of its data, or its error; the sources are to be watched up to
/// that position. In all other cases the state stays, and nothing is to be watched.
pub proof fn lemma_requests_leave(state: StateView, requested: u64, outcome: Option<OutcomeView>)
    ensures
        ({
            let after = state.polled(requested, outcome);
            let is_awaited = state matches StateView::Loading { resource_type, .. } && resource_type == requested;
            &&& state.awaited_task(requested) is Some <==> is_awaited
            &&& state matches StateView::Loading { task, .. } ==> is_awaited ==> state.awaited_task(requested) == Some(
                task,
            )
            &&& match outcome {
                Some(o) => if is_awaited {
                    &&& state.watch_after(requested, outcome) == Some(o.source_idx)
                    &&& match o.result {
                        Ok(loaded) => after matches StateView::CachedValue(value) && {
                            &&& value.resource == loaded.0
                            &&& value.hash == loaded.1
                            &&& value.resource_type == requested
                            &&& value.source_idx == o.source_idx
                        },
                        Err(error) => after == StateView::CachedError(error),
                    }
                } else {
                    after == state && state.watch_after(requested, outcome) is None
                },
                None => after == state && state.watch_after(requested, outcome) is None,
            }
        }),
{
}

/// An update is run if and only if the resource is there, is not being updated, and the update comes
/// from its source or one before it, or precedence is ignored. A failed load is evicted. The state
/// changes if and only if an update is run, and keeps the resource and what it was loaded from.
pub proof fn lemma_updates_are_run(state: StateView, new_idx: SourceIndex, ignore_priority: bool, resource: u64)
    ensures
        state.update(new_idx, ignore_priority) == EntryUpdate::Run(resource) <==> (state matches StateView::CachedValue(
            value,
        ) && value.resource == resource && (ignore_priority || new_idx == value.source_idx || new_idx.before(
            value.source_idx,
        ))),
        state.update(new_idx, ignore_priority) is Evict <==> state is CachedError,
        state.update(new_idx, ignore_priority) is Run ==> (state matches StateView::CachedValue(value)
            && state.updating(new_idx, ignore_priority) == StateView::Updating(value)),
        !(state.update(new_idx, ignore_priority) is Run) ==> state.updating(new_idx, ignore_priority) == state,
{
}

/// An update that ends keeps the resource and its type. One that took new data has that data's hash and
/// position from then on, one that changed nothing has those that it had; what is not being updated
/// stays.
pub proof fn lemma_updates_end(state: StateView, source: SealedView)
    ensures
        match state {
            StateView::Updating(value) => {
                &&& state.finalized(source) matches StateView::CachedValue(after) && {
                    &&& after.resource == value.resource
                    &&& after.resource_type == value.resource_type
                    &&& after.hash == source.hash
                    &&& after.source_idx == source.idx
                }
                &&& state.abandoned() == StateView::CachedValue(value)
                &&& state.hash() == Some(value.hash)
            },
            StateView::CachedValue(value) => {
                &&& state.finalized(source) == state
                &&& state.abandoned() == state
                &&& state.hash() == Some(value.hash)
            },
            _ => {
                &&& state.finalized(source) == state
                &&& state.abandoned() == state
                &&& state.hash() is None
            },
        },
{
}

/// What polling a task and asking an entry give is seen as what it is.
pub proof fn lemma_outcomes_are_seen(polled: Option<LoadOutcome>, answer: Option<EntryGetResult>)
    ensures
        polled is None <==> outcome_option(polled) is None,
        polled matches Some(outcome) ==> (outcome_option(polled) matches Some(seen) && seen.source_idx
            == outcome.source_idx && match outcome.result {
            Ok(loaded) => seen.result == Ok::<(u64, Seq<char>), LoadErrorView>((loaded.0, loaded.1@)),
            Err(error) => seen.result == Err::<(u64, Seq<char>), LoadErrorView>(error@),
        }),
        answer is None <==> answer_option(answer) is None,
        answer matches Some(EntryGetResult::Found(resource)) ==> answer_option(answer) == Some(
            GetView::Found(resource),
        ),
        answer matches Some(EntryGetResult::Failed(error)) ==> answer_option(answer) == Some(GetView::Failed(error@)),
        answer matches Some(EntryGetResult::Expired) ==> answer_option(answer) == Some(GetView::Expired),
{
}

} // verus!
