//! Scheduling of tasks by priority.
use std::marker::PhantomData;
use vstd::multiset::Multiset;
use vstd::prelude::*;

use crate::util::priority::{HasDynamicPriority, HasStaticPriority, PriorityQueue, StaticPriorityQueue};

verus! {

/// What a task is ordered by.
pub trait Metadata: HasStaticPriority {
    /// The metadata after one more attempt to run the task.
    spec fn retried(self) -> Self;

    /// Counts one more attempt.
    fn increment_attempts(&mut self)
        ensures
            *final(self) == old(self).retried(),
    ;
}

/// One more attempt; the count starts over when it is exhausted.
pub open spec fn next_attempt(attempts: usize) -> usize {
    if attempts == usize::MAX {
        0
    } else {
        (attempts + 1) as usize
    }
}

/// Priority first, attempts second, as one number.
pub open spec fn attempt_rank(rank: int, attempts: usize) -> int {
    rank * 0x1_0000_0000_0000_0000 + attempts
}

/// The metadata of a task whose priority never changes.
#[derive(Debug)]
pub struct StaticMetadata<P> {
    pub priority: P,
    pub attempts: usize,
}

impl<P: HasStaticPriority> StaticMetadata<P> {
    /// A task that was not attempted yet.
    pub fn new(priority: P) -> (r: Self)
        ensures
            r == (StaticMetadata { priority, attempts: 0 }),
    {
        StaticMetadata { priority, attempts: 0 }
    }

    /// The priority.
    pub fn into_inner(self) -> (r: P)
        ensures
            r == self.priority,
    {
        self.priority
    }
}

impl<P: HasStaticPriority> HasStaticPriority for StaticMetadata<P> {
    open spec fn rank(&self) -> int {
        attempt_rank(self.priority.rank(), self.attempts)
    }

    fn outranks(&self, other: &Self) -> (r: bool) {
        if self.priority.outranks(&other.priority) {
            true
        } else if other.priority.outranks(&self.priority) {
            false
        } else {
            self.attempts > other.attempts
        }
    }
}

impl<P: HasStaticPriority> Metadata for StaticMetadata<P> {
    open spec fn retried(self) -> Self {
        StaticMetadata { priority: self.priority, attempts: next_attempt(self.attempts) }
    }

    fn increment_attempts(&mut self) {
        self.attempts = self.attempts.wrapping_add(1);
    }
}

/// The metadata of a task whose priority is asked anew each time.
#[derive(Debug)]
pub struct DynamicMetadata<P> {
    pub priority: P,
    pub attempts: usize,
}

impl<P: HasDynamicPriority> DynamicMetadata<P> {
    /// A task that was not attempted yet.
    pub fn new(priority: P) -> (r: Self)
        ensures
            r == (DynamicMetadata { priority, attempts: 0 }),
    {
        DynamicMetadata { priority, attempts: 0 }
    }

    /// The value that has the priority.
    pub fn into_inner(self) -> (r: P)
        ensures
            r == self.priority,
    {
        self.priority
    }
}

impl<P: HasDynamicPriority> HasStaticPriority for DynamicMetadata<P> {
    open spec fn rank(&self) -> int {
        attempt_rank(self.priority.current().rank(), self.attempts)
    }

    fn outranks(&self, other: &Self) -> (r: bool) {
        let mine = self.priority.priority();
        let theirs = other.priority.priority();
        if mine.outranks(&theirs) {
            true
        } else if theirs.outranks(&mine) {
            false
        } else {
            self.attempts > other.attempts
        }
    }
}

impl<P: HasDynamicPriority> Metadata for DynamicMetadata<P> {
    open spec fn retried(self) -> Self {
        DynamicMetadata { priority: self.priority, attempts: next_attempt(self.attempts) }
    }

    fn increment_attempts(&mut self) {
        self.attempts = self.attempts.wrapping_add(1);
    }
}

/// A task that waits to be run.
#[derive(Debug)]
pub struct Scheduled<M> {
    pub metadata: M,
    pub task: u64,
}

impl<M: HasStaticPriority> HasStaticPriority for Scheduled<M> {
    open spec fn rank(&self) -> int {
        self.metadata.rank()
    }

    fn outranks(&self, other: &Self) -> (r: bool) {
        self.metadata.outranks(&other.metadata)
    }
}

/// Tasks in a queue that looks for the highest one when asked, so that priorities may change
/// between accesses.
pub struct ScanQueue<M> {
    queue: Vec<Scheduled<M>>,
}

/// The first place of a task that no task outranks.
pub open spec fn first_top<T: HasStaticPriority>(s: Seq<T>, i: int) -> bool {
    &&& 0 <= i < s.len()
    &&& forall|j: int| 0 <= j < s.len() ==> (#[trigger] s[j]).rank() <= s[i].rank()
    &&& forall|j: int| 0 <= j < i ==> (#[trigger] s[j]).rank() < s[i].rank()
}

/// The first of the highest elements.
pub fn find_highest_vec_idx<T: HasStaticPriority>(s: &Vec<T>) -> (r: Option<usize>)
    ensures
        r.is_none() == (s@.len() == 0),
        r.is_some() ==> first_top(s@, r.unwrap() as int),
{
    let mut highest: Option<usize> = None;
    let mut i: usize = 0;
    while i < s.len()
        invariant
            i <= s@.len(),
            highest.is_none() == (i == 0),
            highest.is_some() ==> first_top(s@.take(i as int), highest.unwrap() as int),
        decreases s@.len() - i,
    {
        let replace = match highest {
            Some(h) => {
                assert(s@.take(i as int).len() == i);
                s[i].outranks(&s[h])
            },
            None => true,
        };
        let ghost h0 = highest;
        if replace {
            highest = Some(i);
        }
        proof {
            let k = highest.unwrap() as int;
            let t = s@.take(i + 1);
            assert forall|j: int| 0 <= j < t.len() implies (#[trigger] t[j]).rank() <= t[k].rank() by {
                if j < i {
                    assert(s@.take(i as int)[j] == t[j]);
                }
            }
            assert forall|j: int| 0 <= j < k implies (#[trigger] t[j]).rank() < t[k].rank() by {
                assert(s@.take(i as int)[j] == t[j]);
            }
        }
        i += 1;
    }
    assert(s@.take(s@.len() as int) =~= s@);
    highest
}

impl<M: HasStaticPriority> ScanQueue<M> {
    /// The empty queue.
    pub fn new() -> (r: Self)
        ensures
            r.wf(),
            r.items() == Multiset::<Scheduled<M>>::empty(),
    {
        broadcast use vstd::seq_lib::group_to_multiset_ensures;

        let r = ScanQueue { queue: Vec::new() };
        assert(r.items() =~= Multiset::<Scheduled<M>>::empty());
        r
    }

    proof fn lemma_top(&self, i: int)
        requires
            first_top(self.queue@, i),
        ensures
            crate::util::priority::is_highest(
                self.items(),
                |x: Scheduled<M>| <Self as PriorityQueue<Scheduled<M>>>::level(x),
                self.queue@[i],
            ),
    {
        broadcast use vstd::seq_lib::group_to_multiset_ensures;

        assert(self.queue@.contains(self.queue@[i]));
        assert forall|y: Scheduled<M>| #[trigger] self.items().contains(y) implies y.rank()
            <= self.queue@[i].rank() by {
            assert(self.queue@.contains(y));
            let j = choose|j: int| 0 <= j < self.queue@.len() && self.queue@[j] == y;
        }
    }
}

impl<M: HasStaticPriority> PriorityQueue<Scheduled<M>> for ScanQueue<M> {
    open spec fn wf(&self) -> bool {
        true
    }

    closed spec fn items(&self) -> Multiset<Scheduled<M>> {
        self.queue@.to_multiset()
    }

    open spec fn level(x: Scheduled<M>) -> int {
        x.rank()
    }

    fn len(&self) -> (r: usize) {
        broadcast use vstd::seq_lib::group_to_multiset_ensures;

        self.queue.len()
    }

    fn is_empty(&self) -> (r: bool) {
        broadcast use vstd::seq_lib::group_to_multiset_ensures;

        self.queue.len() == 0
    }

    fn peek(&self) -> (r: Option<&Scheduled<M>>) {
        broadcast use vstd::seq_lib::group_to_multiset_ensures;

        match find_highest_vec_idx(&self.queue) {
            Some(idx) => {
                proof {
                    self.lemma_top(idx as int);
                }
                Some(&self.queue[idx])
            },
            None => None,
        }
    }

    fn push(&mut self, value: Scheduled<M>) {
        broadcast use vstd::seq_lib::group_to_multiset_ensures;

        self.queue.push(value);
        assert(self.items() =~= old(self).items().insert(value));
    }

    fn pop(&mut self) -> (r: Option<Scheduled<M>>) {
        broadcast use vstd::seq_lib::group_to_multiset_ensures;

        match find_highest_vec_idx(&self.queue) {
            Some(idx) => {
                proof {
                    self.lemma_top(idx as int);
                    crate::util::priority::lemma_swap_remove_multiset(self.queue@, idx as int);
                }
                Some(self.queue.swap_remove(idx))
            },
            None => None,
        }
    }

    fn swap_if_higher(&mut self, value: Scheduled<M>) -> (r: Scheduled<M>) {
        broadcast use vstd::seq_lib::group_to_multiset_ensures;

        match find_highest_vec_idx(&self.queue) {
            Some(idx) => {
                proof {
                    self.lemma_top(idx as int);
                    crate::util::priority::lemma_swap_remove_multiset(self.queue@, idx as int);
                    assert(self.items().contains(self.queue@[idx as int]));
                }
                if self.queue[idx].outranks(&value) {
                    let found = self.queue.swap_remove(idx);
                    self.queue.push(value);
                    assert(self.items() =~= old(self).items().remove(found).insert(value));
                    found
                } else {
                    value
                }
            },
            None => value,
        }
    }
}

/// Tasks with fixed priorities, in a heap.
pub type StaticPriority<P> = StaticPriorityQueue<Scheduled<StaticMetadata<P>>>;

/// Tasks with changing priorities.
pub type DynamicPriority<P> = ScanQueue<DynamicMetadata<P>>;

/// The slot map that holds the waker of every unfinished task.
#[verifier::external_type_specification]
#[verifier::external_body]
#[verifier::reject_recursive_types(T)]
pub struct ExSlab<T>(slab::Slab<T>);

/// The values that the slot map holds, by slot.
pub uninterp spec fn slab_contents(slots: slab::Slab<u64>) -> Map<usize, u64>;

/// Whether a mapping of slots has no entry.
pub open spec fn no_slots(slots: Map<usize, u64>) -> bool {
    forall|k: usize| !#[trigger] slots.contains_key(k)
}

/// `slab::Slab::new`: no slot holds a value.
#[verifier::external_body]
fn slab_new() -> (r: slab::Slab<u64>)
    ensures
        no_slots(slab_contents(r)),
{
    slab::Slab::new()
}

/// `slab::Slab::insert`: puts the value in a slot that held none and returns the slot. Which of
/// the free slots it takes is left open.
#[verifier::external_body]
fn slab_insert(slots: &mut slab::Slab<u64>, value: u64) -> (r: usize)
    ensures
        !slab_contents(*old(slots)).contains_key(r),
        slab_contents(*final(slots)) == slab_contents(*old(slots)).insert(r, value),
{
    slots.insert(value)
}

/// `slab::Slab::try_remove`: takes the value out of a slot, `None` if it holds none.
#[verifier::external_body]
fn slab_try_remove(slots: &mut slab::Slab<u64>, key: usize) -> (r: Option<u64>)
    ensures
        r.is_some() == slab_contents(*old(slots)).contains_key(key),
        r.is_some() ==> r.unwrap() == slab_contents(*old(slots))[key],
        slab_contents(*final(slots)) == slab_contents(*old(slots)).remove(key),
{
    slots.try_remove(key)
}

/// `slab::Slab::is_empty`: whether no slot holds a value.
#[verifier::external_body]
fn slab_is_empty(slots: &slab::Slab<u64>) -> (r: bool)
    ensures
        r == no_slots(slab_contents(*slots)),
{
    slots.is_empty()
}

/// Whether `values` are what the slots hold, one for each of `keys`, the slots in use in ascending
/// order.
pub open spec fn lists(slots: Map<usize, u64>, keys: Seq<usize>, values: Seq<u64>) -> bool {
    &&& keys.len() == values.len()
    &&& forall|i: int, j: int| 0 <= i < j < keys.len() ==> keys[i] < keys[j]
    &&& forall|k: usize| #[trigger] slots.contains_key(k) <==> keys.contains(k)
    &&& forall|i: int| 0 <= i < keys.len() ==> #[trigger] values[i] == slots[keys[i]]
}

/// `slab::Slab::drain`: takes all values out and returns them in the order of their slots.
#[verifier::external_body]
fn slab_drain(slots: &mut slab::Slab<u64>) -> (r: Vec<u64>)
    ensures
        no_slots(slab_contents(*final(slots))),
        exists|keys: Seq<usize>| #[trigger] lists(slab_contents(*old(slots)), keys, r@),
{
    slots.drain().collect()
}

/// The wakers that are registered, in the order of the workers.
pub open spec fn registered(workers: Seq<Option<u64>>) -> Seq<u64>
    decreases workers.len(),
{
    if workers.len() == 0 {
        Seq::empty()
    } else {
        match workers.last() {
            Some(w) => registered(workers.drop_last()).push(w),
            None => registered(workers.drop_last()),
        }
    }
}

/// Slots that are distinct and not in use.
pub open spec fn fresh_slots(unfinished: Map<usize, u64>, slots: Seq<usize>) -> bool {
    &&& slots.no_duplicates()
    &&& forall|i: int| 0 <= i < slots.len() ==> !unfinished.contains_key(#[trigger] slots[i])
}

/// Unfinished tasks after more were taken in, each in its slot.
pub open spec fn with_tasks<M>(unfinished: Map<usize, u64>, slots: Seq<usize>, tasks: Seq<(M, u64)>) -> Map<
    usize,
    u64,
>
    decreases slots.len(),
{
    if slots.len() == 0 || tasks.len() == 0 {
        unfinished
    } else {
        with_tasks(unfinished, slots.drop_last(), tasks.drop_last()).insert(slots.last(), tasks.last().1)
    }
}

/// Queued tasks after more were queued.
pub open spec fn with_scheduled<M: Metadata>(queued: Multiset<Scheduled<M>>, tasks: Seq<(M, u64)>) -> Multiset<
    Scheduled<M>,
>
    decreases tasks.len(),
{
    if tasks.len() == 0 {
        queued
    } else {
        with_scheduled(queued, tasks.drop_last()).insert(
            Scheduled { metadata: tasks.last().0.retried(), task: tasks.last().1 },
        )
    }
}

proof fn lemma_with_tasks<M>(unfinished: Map<usize, u64>, slots: Seq<usize>, tasks: Seq<(M, u64)>)
    requires
        slots.len() == tasks.len(),
    ensures
        forall|k: usize| #[trigger]
            with_tasks(unfinished, slots, tasks).contains_key(k) <==> unfinished.contains_key(k) || slots.contains(
                k,
            ),
    decreases slots.len(),
{
    if slots.len() > 0 {
        lemma_with_tasks(unfinished, slots.drop_last(), tasks.drop_last());
        assert(slots =~= slots.drop_last().push(slots.last()));
        assert forall|k: usize| #[trigger]
            with_tasks(unfinished, slots, tasks).contains_key(k) <==> unfinished.contains_key(k) || slots.contains(
                k,
            ) by {
            let inner = with_tasks(unfinished, slots.drop_last(), tasks.drop_last());
            assert(inner.contains_key(k) <==> unfinished.contains_key(k) || slots.drop_last().contains(k));
            if slots.contains(k) && k != slots.last() {
                let i = choose|i: int| 0 <= i < slots.len() && slots[i] == k;
                assert(slots.drop_last()[i] == k);
            }
            if slots.drop_last().contains(k) {
                let i = choose|i: int| 0 <= i < slots.drop_last().len() && slots.drop_last()[i] == k;
                assert(slots[i] == k);
            }
            assert(slots[slots.len() - 1] == slots.last());
        }
    }
}

proof fn lemma_registered_none(sleepers: Seq<Option<u64>>)
    requires
        forall|i: int| 0 <= i < sleepers.len() ==> (#[trigger] sleepers[i]).is_none(),
    ensures
        registered(sleepers) == Seq::<u64>::empty(),
    decreases sleepers.len(),
{
    if sleepers.len() > 0 {
        assert(sleepers.last() == sleepers[sleepers.len() - 1]);
        lemma_registered_none(sleepers.drop_last());
    }
}

/// The tasks, queues and sleeping workers of an executor.
pub struct Executor<M, Q> {
    state: Q,
    active: slab::Slab<u64>,
    workers: Vec<Option<u64>>,
    marker: PhantomData<M>,
}

impl<M: Metadata, Q: PriorityQueue<Scheduled<M>>> Executor<M, Q> {
    /// The queue is in order.
    pub closed spec fn wf(&self) -> bool {
        self.state.wf()
    }

    /// The tasks that wait to be run.
    pub closed spec fn queued(&self) -> Multiset<Scheduled<M>> {
        self.state.items()
    }

    /// The unfinished tasks, by slot.
    pub closed spec fn unfinished(&self) -> Map<usize, u64> {
        slab_contents(self.active)
    }

    /// For each worker the waker that it sleeps on, if it does.
    pub closed spec fn sleepers(&self) -> Seq<Option<u64>> {
        self.workers@
    }

    /// Whether every task is finished.
    pub fn is_empty(&self) -> (r: bool)
        ensures
            r == no_slots(self.unfinished()),
    {
        slab_is_empty(&self.active)
    }

    /// Wakes every sleeping worker: returns their wakers and forgets them.
    fn wake_workers(&mut self) -> (r: Vec<u64>)
        requires
            old(self).wf(),
        ensures
            final(self).wf(),
            final(self).queued() == old(self).queued(),
            final(self).unfinished() == old(self).unfinished(),
            r@ == registered(old(self).sleepers()),
            final(self).sleepers() == Seq::new(old(self).sleepers().len(), |i: int| None::<u64>),
    {
        let mut woken: Vec<u64> = Vec::new();
        let mut i: usize = 0;
        let ghost all = self.workers@;
        assert(all.take(0) =~= Seq::<Option<u64>>::empty());
        while i < self.workers.len()
            invariant
                i <= self.workers@.len(),
                all == old(self).sleepers(),
                self.workers@.len() == all.len(),
                self.state == old(self).state,
                self.active == old(self).active,
                woken@ == registered(all.take(i as int)),
                forall|j: int| 0 <= j < i ==> self.workers@[j] == None::<u64>,
                forall|j: int| i <= j < all.len() ==> self.workers@[j] == all[j],
            decreases all.len() - i,
        {
            assert(all.take(i + 1).drop_last() =~= all.take(i as int));
            match self.workers[i] {
                Some(waker) => {
                    woken.push(waker);
                    self.workers[i] = None;
                },
                None => {},
            }
            i += 1;
        }
        assert(all.take(all.len() as int) =~= all);
        assert(self.workers@ =~= Seq::new(all.len(), |i: int| None::<u64>));
        woken
    }

    /// Queues a task for (another) attempt. The workers to wake are returned.
    pub fn schedule(&mut self, metadata: M, task: u64) -> (r: Vec<u64>)
        requires
            old(self).wf(),
        ensures
            final(self).wf(),
            final(self).queued() == old(self).queued().insert(
                Scheduled { metadata: metadata.retried(), task },
            ),
            final(self).unfinished() == old(self).unfinished(),
            r@ == registered(old(self).sleepers()),
            final(self).sleepers() == Seq::new(old(self).sleepers().len(), |i: int| None::<u64>),
    {
        let mut metadata = metadata;
        metadata.increment_attempts();
        self.state.push(Scheduled { metadata, task });
        self.wake_workers()
    }

    /// Takes in a new task and queues it. Its slot and the workers to wake are returned.
    pub fn spawn(&mut self, metadata: M, task: u64) -> (r: (usize, Vec<u64>))
        requires
            old(self).wf(),
        ensures
            final(self).wf(),
            !old(self).unfinished().contains_key(r.0),
            final(self).unfinished() == old(self).unfinished().insert(r.0, task),
            final(self).queued() == old(self).queued().insert(
                Scheduled { metadata: metadata.retried(), task },
            ),
            r.1@ == registered(old(self).sleepers()),
            final(self).sleepers() == Seq::new(old(self).sleepers().len(), |i: int| None::<u64>),
    {
        let slot: usize = slab_insert(&mut self.active, task);
        let woken = self.schedule(metadata, task);
        (slot, woken)
    }

    /// Takes in new tasks, in order, and queues them. Their slots and the workers to wake are
    /// returned.
    pub fn spawn_many(&mut self, tasks: Vec<(M, u64)>) -> (r: (Vec<usize>, Vec<u64>))
        requires
            old(self).wf(),
        ensures
            final(self).wf(),
            r.0@.len() == tasks@.len(),
            fresh_slots(old(self).unfinished(), r.0@),
            final(self).unfinished() == with_tasks(old(self).unfinished(), r.0@, tasks@),
            final(self).queued() == with_scheduled(old(self).queued(), tasks@),
            r.1@ == (if tasks@.len() == 0 {
                Seq::<u64>::empty()
            } else {
                registered(old(self).sleepers())
            }),
            tasks@.len() > 0 ==> final(self).sleepers() == Seq::new(
                old(self).sleepers().len(),
                |i: int| None::<u64>,
            ),
            tasks@.len() == 0 ==> final(self).sleepers() == old(self).sleepers(),
    {
        let ghost all = tasks@;
        let n: usize = tasks.len();
        let mut rest = tasks;
        let mut slots: Vec<usize> = Vec::new();
        let mut woken: Vec<u64> = Vec::new();
        let mut i: usize = 0;
        while i < n
            invariant
                self.wf(),
                i <= n,
                n == all.len(),
                rest@ == all.skip(i as int),
                slots@.len() == i,
                fresh_slots(old(self).unfinished(), slots@),
                self.unfinished() == with_tasks(old(self).unfinished(), slots@, all.take(i as int)),
                self.queued() == with_scheduled(old(self).queued(), all.take(i as int)),
                i == 0 ==> woken@ == Seq::<u64>::empty() && self.sleepers() == old(self).sleepers(),
                i > 0 ==> woken@ == registered(old(self).sleepers()) && self.sleepers() == Seq::new(
                    old(self).sleepers().len(),
                    |i: int| None::<u64>,
                ),
            decreases n - i,
        {
            let ghost before = *self;
            let ghost slots_before = slots@;
            let (metadata, task) = rest.remove(0);
            let (slot, mut more) = self.spawn(metadata, task);
            slots.push(slot);
            proof {
                assert(all.skip(i as int).remove(0) =~= all.skip(i + 1));
                assert(all.take(i + 1).drop_last() =~= all.take(i as int));
                assert(slots@.drop_last() =~= slots_before);
                lemma_with_tasks(old(self).unfinished(), slots_before, all.take(i as int));
                if i > 0 {
                    lemma_registered_none(before.sleepers());
                }
            }
            woken.append(&mut more);
            assert(woken@ =~= registered(old(self).sleepers()));
            i += 1;
        }
        assert(all.take(n as int) =~= all);
        (slots, woken)
    }

    /// Forgets a finished (or dropped) task.
    pub fn finish(&mut self, slot: usize) -> (r: Option<u64>)
        requires
            old(self).wf(),
        ensures
            final(self).wf(),
            final(self).queued() == old(self).queued(),
            final(self).sleepers() == old(self).sleepers(),
            final(self).unfinished() == old(self).unfinished().remove(slot),
            r.is_some() == old(self).unfinished().contains_key(slot),
            r.is_some() ==> r.unwrap() == old(self).unfinished()[slot],
    {
        slab_try_remove(&mut self.active, slot)
    }

    /// The next task for a worker. If there is none, the worker is put to sleep on `waker`, or
    /// stays asleep on the waker that it has.
    pub fn runnable(&mut self, worker: usize, waker: u64) -> (r: Option<Scheduled<M>>)
        requires
            old(self).wf(),
            worker < old(self).sleepers().len(),
        ensures
            final(self).wf(),
            final(self).unfinished() == old(self).unfinished(),
            r.is_none() == (old(self).queued().len() == 0),
            r.is_some() ==> {
                &&& crate::util::priority::is_highest(
                    old(self).queued(),
                    |x: Scheduled<M>| Q::level(x),
                    r.unwrap(),
                )
                &&& final(self).queued() == old(self).queued().remove(r.unwrap())
                &&& final(self).sleepers() == old(self).sleepers().update(worker as int, None)
            },
            r.is_none() ==> {
                &&& final(self).queued() == old(self).queued()
                &&& final(self).sleepers() == old(self).sleepers().update(
                    worker as int,
                    if old(self).sleepers()[worker as int].is_some() {
                        old(self).sleepers()[worker as int]
                    } else {
                        Some(waker)
                    },
                )
            },
    {
        match self.state.pop() {
            Some(task) => {
                self.workers[worker] = None;
                Some(task)
            },
            None => {
                if self.workers[worker].is_none() {
                    self.workers[worker] = Some(waker);
                }
                assert(self.workers@ =~= old(self).workers@.update(worker as int, self.workers@[worker as int]));
                None
            },
        }
    }

    /// Gives up all unfinished tasks, and returns their wakers in the order of their slots: they are
    /// to be woken, so that they notice.
    pub fn drain_active(&mut self) -> (r: Vec<u64>)
        requires
            old(self).wf(),
        ensures
            final(self).wf(),
            final(self).queued() == old(self).queued(),
            final(self).sleepers() == old(self).sleepers(),
            no_slots(final(self).unfinished()),
            exists|keys: Seq<usize>| #[trigger] lists(old(self).unfinished(), keys, r@),
    {
        let ghost slots = slab_contents(self.active);
        let drained = slab_drain(&mut self.active);
        proof {
            let keys = choose|keys: Seq<usize>| #[trigger] lists(slots, keys, drained@);
            assert(lists(old(self).unfinished(), keys, drained@));
        }
        drained
    }

    /// Throws away all queued tasks.
    pub fn drain_queue(&mut self)
        requires
            old(self).wf(),
        ensures
            final(self).wf(),
            final(self).queued().len() == 0,
            final(self).sleepers() == old(self).sleepers(),
            final(self).unfinished() == old(self).unfinished(),
    {
        let mut more = true;
        while more
            invariant
                self.wf(),
                !more ==> self.queued().len() == 0,
                self.workers == old(self).workers,
                self.active == old(self).active,
            decreases self.queued().len(), (if more { 1int } else { 0int }),
        {
            let ghost n = self.queued().len();
            match self.state.pop() {
                Some(_) => {
                    assert(self.queued().len() == n - 1);
                },
                None => {
                    more = false;
                },
            }
        }
    }
}

/// The options of an executor.
#[derive(Debug, Clone, Copy, PartialEq, Eq, Structural)]
pub struct ExecutorBuilder {
    pub worker_count: Option<usize>,
}

impl ExecutorBuilder {
    /// No option is set.
    pub fn new() -> (r: Self)
        ensures
            r == (ExecutorBuilder { worker_count: None }),
    {
        ExecutorBuilder { worker_count: None }
    }

    /// Sets the number of workers.
    pub fn worker_count(self, count: usize) -> (r: Self)
        ensures
            r == (ExecutorBuilder { worker_count: Some(count) }),
    {
        ExecutorBuilder { worker_count: Some(count) }
    }

    /// The number of workers; one, if none was set.
    pub open spec fn workers(self) -> usize {
        match self.worker_count {
            Some(count) => count,
            None => 1,
        }
    }

    fn awake(self) -> (r: Vec<Option<u64>>)
        ensures
            r@ == Seq::new(self.workers() as nat, |i: int| None::<u64>),
    {
        let count: usize = match self.worker_count {
            Some(count) => count,
            None => 1,
        };
        let mut workers: Vec<Option<u64>> = Vec::new();
        let mut i: usize = 0;
        while i < count
            invariant
                i <= count,
                workers@ == Seq::new(i as nat, |i: int| None::<u64>),
            decreases count - i,
        {
            workers.push(None);
            assert(workers@ =~= Seq::new((i + 1) as nat, |i: int| None::<u64>));
            i += 1;
        }
        workers
    }

    /// An executor for tasks with fixed priorities.
    pub fn static_priority<P: HasStaticPriority>(self) -> (r: Executor<
        StaticMetadata<P>,
        StaticPriority<P>,
    >)
        ensures
            r.wf(),
            r.queued() == Multiset::<Scheduled<StaticMetadata<P>>>::empty(),
            no_slots(r.unfinished()),
            r.sleepers() == Seq::new(self.workers() as nat, |i: int| None::<u64>),
    {
        Executor {
            state: StaticPriorityQueue::new(),
            active: slab_new(),
            workers: self.awake(),
            marker: PhantomData,
        }
    }

    /// An executor for tasks with changing priorities.
    pub fn dynamic_priority<P: HasDynamicPriority>(self) -> (r: Executor<
        DynamicMetadata<P>,
        DynamicPriority<P>,
    >)
        ensures
            r.wf(),
            r.queued() == Multiset::<Scheduled<DynamicMetadata<P>>>::empty(),
            no_slots(r.unfinished()),
            r.sleepers() == Seq::new(self.workers() as nat, |i: int| None::<u64>),
    {
        Executor {
            state: ScanQueue::new(),
            active: slab_new(),
            workers: self.awake(),
            marker: PhantomData,
        }
    }
}

/// One more attempt is counted, up to the greatest count, and the priority stays.
pub proof fn lemma_attempts_are_counted<P: HasStaticPriority, D: HasDynamicPriority>(
    fixed: StaticMetadata<P>,
    asked: DynamicMetadata<D>,
)
    ensures
        fixed.retried().priority == fixed.priority,
        fixed.attempts < usize::MAX ==> fixed.retried().attempts == fixed.attempts + 1,
        fixed.attempts == usize::MAX ==> fixed.retried().attempts == 0,
        asked.retried().priority == asked.priority,
        asked.attempts < usize::MAX ==> asked.retried().attempts == asked.attempts + 1,
        asked.attempts == usize::MAX ==> asked.retried().attempts == 0,
{
}

/// The priority of a task decides, and among tasks of one priority the number of attempts: a task
/// that was attempted more often comes first.
pub proof fn lemma_priority_before_attempts<P: HasStaticPriority>(a: StaticMetadata<P>, b: StaticMetadata<P>)
    ensures
        a.rank() > b.rank() <==> a.priority.rank() > b.priority.rank() || a.priority.rank() == b.priority.rank()
            && a.attempts > b.attempts,
{
    lemma_attempt_rank(a.priority.rank(), a.attempts, b.priority.rank(), b.attempts);
}

/// The priority that a task has at present decides, and among tasks of one priority the number of
/// attempts.
pub proof fn lemma_current_priority_before_attempts<P: HasDynamicPriority>(a: DynamicMetadata<P>, b: DynamicMetadata<P>)
    ensures
        a.rank() > b.rank() <==> a.priority.current().rank() > b.priority.current().rank()
            || a.priority.current().rank() == b.priority.current().rank() && a.attempts > b.attempts,
{
    lemma_attempt_rank(a.priority.current().rank(), a.attempts, b.priority.current().rank(), b.attempts);
}

proof fn lemma_attempt_rank(p: int, a: usize, q: int, b: usize)
    ensures
        attempt_rank(p, a) > attempt_rank(q, b) <==> p > q || p == q && a > b,
{
    assert(a <= 0xffff_ffff_ffff_ffff && b <= 0xffff_ffff_ffff_ffff);
}

/// A task is ordered by what is known of it, whichever task it is.
pub proof fn lemma_tasks_rank_by_metadata<M: HasStaticPriority>(a: Scheduled<M>, b: Scheduled<M>)
    ensures
        a.rank() > b.rank() <==> a.metadata.rank() > b.metadata.rank(),
        ScanQueue::<M>::level(a) > ScanQueue::<M>::level(b) <==> a.metadata.rank() > b.metadata.rank(),
        StaticPriorityQueue::<Scheduled<M>>::level(a) > StaticPriorityQueue::<Scheduled<M>>::level(b)
            <==> a.metadata.rank() > b.metadata.rank(),
{
}

/// The task that is run next is one that waits, and no waiting task has a higher priority, nor the
/// same priority with more attempts.
pub proof fn lemma_highest_task_is_run<P: HasStaticPriority>(
    queued: Multiset<Scheduled<StaticMetadata<P>>>,
    next: Scheduled<StaticMetadata<P>>,
    other: Scheduled<StaticMetadata<P>>,
)
    requires
        crate::util::priority::is_highest(
            queued,
            |x: Scheduled<StaticMetadata<P>>| StaticPriority::<P>::level(x),
            next,
        ),
        queued.contains(other),
    ensures
        queued.contains(next),
        other.metadata.priority.rank() <= next.metadata.priority.rank(),
        other.metadata.priority.rank() == next.metadata.priority.rank() ==> other.metadata.attempts
            <= next.metadata.attempts,
{
    let level = |x: Scheduled<StaticMetadata<P>>| StaticPriority::<P>::level(x);
    assert(level(other) <= level(next));
    lemma_priority_before_attempts(other.metadata, next.metadata);
}

/// The task that is run next is one that waits, and no waiting task has a higher priority at
/// present, nor the same priority with more attempts.
pub proof fn lemma_highest_current_task_is_run<P: HasDynamicPriority>(
    queued: Multiset<Scheduled<DynamicMetadata<P>>>,
    next: Scheduled<DynamicMetadata<P>>,
    other: Scheduled<DynamicMetadata<P>>,
)
    requires
        crate::util::priority::is_highest(
            queued,
            |x: Scheduled<DynamicMetadata<P>>| DynamicPriority::<P>::level(x),
            next,
        ),
        queued.contains(other),
    ensures
        queued.contains(next),
        other.metadata.priority.current().rank() <= next.metadata.priority.current().rank(),
        other.metadata.priority.current().rank() == next.metadata.priority.current().rank()
            ==> other.metadata.attempts <= next.metadata.attempts,
{
    let level = |x: Scheduled<DynamicMetadata<P>>| DynamicPriority::<P>::level(x);
    assert(level(other) <= level(next));
    lemma_current_priority_before_attempts(other.metadata, next.metadata);
}

/// Of the highest elements the first one is found.
pub proof fn lemma_first_of_the_highest<T: HasStaticPriority>(s: Seq<T>, i: int, j: int)
    requires
        first_top(s, i),
        0 <= j < s.len(),
    ensures
        0 <= i < s.len(),
        s[j].rank() <= s[i].rank(),
        s[j].rank() == s[i].rank() ==> i <= j,
{
}

/// Every worker that sleeps is woken, in the order of the workers, and nobody else.
pub proof fn lemma_sleepers_are_woken(a: Seq<Option<u64>>, b: Seq<Option<u64>>, waker: u64)
    ensures
        registered(a + b) == registered(a) + registered(b),
        registered(seq![Some(waker)]) == seq![waker],
        registered(seq![None::<u64>]).len() == 0,
        registered(a).contains(waker) <==> a.contains(Some(waker)),
    decreases b.len(), a.len(),
{
    let one = seq![Some(waker)];
    assert(one.drop_last() =~= Seq::<Option<u64>>::empty());
    assert(registered(one.drop_last()) =~= Seq::<u64>::empty());
    assert(one.last() == Some(waker));
    assert(Seq::<u64>::empty().push(waker) =~= seq![waker]);
    let none = seq![None::<u64>];
    assert(none.drop_last() =~= Seq::<Option<u64>>::empty());
    assert(none.last() == None::<u64>);
    if b.len() == 0 {
        assert(a + b =~= a);
        assert(registered(a) + registered(b) =~= registered(a));
        if a.len() > 0 {
            let rest = a.drop_last();
            lemma_sleepers_are_woken(rest, b, waker);
            assert(a =~= rest.push(a.last()));
            let before = registered(rest);
            let all = registered(a);
            if before.contains(waker) {
                let i = choose|i: int| 0 <= i < before.len() && before[i] == waker;
                assert(all[i] == waker);
            }
            if a.last() == Some(waker) {
                assert(all[before.len() as int] == waker);
                assert(a[a.len() - 1] == Some(waker));
            }
            if rest.contains(Some(waker)) {
                let i = choose|i: int| 0 <= i < rest.len() && rest[i] == Some(waker);
                assert(a[i] == Some(waker));
            }
            if a.contains(Some(waker)) {
                let i = choose|i: int| 0 <= i < a.len() && a[i] == Some(waker);
                if i < rest.len() {
                    assert(rest[i] == Some(waker));
                }
            }
            if all.contains(waker) {
                let i = choose|i: int| 0 <= i < all.len() && all[i] == waker;
                if i < before.len() {
                    assert(before[i] == waker);
                }
            }
        }
    } else {
        lemma_sleepers_are_woken(a, b.drop_last(), waker);
        assert((a + b).drop_last() =~= a + b.drop_last());
        assert(registered(a + b) =~= registered(a) + registered(b));
    }
}

/// Each new task holds the slot that it was given, and the slots of other tasks stay as they are.
pub proof fn lemma_slots_hold_their_tasks<M>(
    unfinished: Map<usize, u64>,
    slots: Seq<usize>,
    tasks: Seq<(M, u64)>,
    slot: usize,
)
    requires
        slots.len() == tasks.len(),
        fresh_slots(unfinished, slots),
    ensures
        ({
            let after = with_tasks(unfinished, slots, tasks);
            &&& forall|i: int|
                0 <= i < slots.len() ==> after.contains_key(#[trigger] slots[i]) && after[slots[i]] == tasks[i].1
                    && !unfinished.contains_key(slots[i])
            &&& forall|i: int, j: int| 0 <= i < j < slots.len() ==> #[trigger] slots[i] != #[trigger] slots[j]
            &&& unfinished.contains_key(slot) ==> after.contains_key(slot) && after[slot] == unfinished[slot]
            &&& after.contains_key(slot) ==> unfinished.contains_key(slot) || slots.contains(slot)
        }),
    decreases slots.len(),
{
    if slots.len() > 0 {
        let rest = slots.drop_last();
        assert(fresh_slots(unfinished, rest)) by {
            assert forall|i: int| 0 <= i < rest.len() implies !unfinished.contains_key(#[trigger] rest[i]) by {
                assert(slots[i] == rest[i]);
            }
        }
        lemma_slots_hold_their_tasks(unfinished, rest, tasks.drop_last(), slot);
        let inner = with_tasks(unfinished, rest, tasks.drop_last());
        let after = with_tasks(unfinished, slots, tasks);
        assert forall|i: int| 0 <= i < slots.len() implies after.contains_key(#[trigger] slots[i]) && after[slots[i]]
            == tasks[i].1 by {
            if i < rest.len() {
                assert(rest[i] == slots[i]);
                assert(slots[i] != slots[slots.len() - 1]);
                assert(inner.contains_key(rest[i]));
            }
        }
        assert(slots[slots.len() - 1] == slots.last());
        if rest.contains(slot) {
            let i = choose|i: int| 0 <= i < rest.len() && rest[i] == slot;
            assert(slots[i] == slot);
        }
    }
}

/// Every new task waits to be run, attempted once more, besides the tasks that waited before.
pub proof fn lemma_new_tasks_wait<M: Metadata>(
    queued: Multiset<Scheduled<M>>,
    a: Seq<(M, u64)>,
    b: Seq<(M, u64)>,
    task: (M, u64),
)
    ensures
        with_scheduled(queued, a + b) == with_scheduled(with_scheduled(queued, a), b),
        with_scheduled(queued, seq![task]) == queued.insert(
            Scheduled { metadata: task.0.retried(), task: task.1 },
        ),
        with_scheduled(queued, b).len() == queued.len() + b.len(),
        queued.subset_of(with_scheduled(queued, b)),
        forall|i: int|
            0 <= i < b.len() ==> with_scheduled(queued, b).contains(
                Scheduled { metadata: (#[trigger] b[i]).0.retried(), task: b[i].1 },
            ),
    decreases b.len(),
{
    let one = seq![task];
    assert(one.drop_last() =~= Seq::<(M, u64)>::empty());
    assert(with_scheduled(queued, one.drop_last()) == queued);
    assert(one.last() == task);
    if b.len() == 0 {
        assert(a + b =~= a);
    } else {
        let rest = b.drop_last();
        lemma_new_tasks_wait(queued, a, rest, task);
        assert((a + b).drop_last() =~= a + rest);
        assert forall|i: int| 0 <= i < b.len() implies with_scheduled(queued, b).contains(
            Scheduled { metadata: (#[trigger] b[i]).0.retried(), task: b[i].1 },
        ) by {
            if i < rest.len() {
                assert(rest[i] == b[i]);
            }
        }
    }
}

/// Every task is finished if and only if no slot holds one; an executor has as many workers as were
/// asked for, and one if none were.
pub proof fn lemma_nothing_is_left(slots: Map<usize, u64>, builder: ExecutorBuilder)
    ensures
        no_slots(slots) <==> slots.dom() == Set::<usize>::empty(),
        builder.worker_count matches Some(count) ==> builder.workers() == count,
        builder.worker_count is None ==> builder.workers() == 1,
{
    if no_slots(slots) {
        assert forall|k: usize| !slots.dom().contains(k) by {
            assert(!slots.contains_key(k));
        }
        assert(slots.dom() =~= Set::<usize>::empty());
    }
    if slots.dom() == Set::<usize>::empty() {
        assert forall|k: usize| !#[trigger] slots.contains_key(k) by {
            assert(!slots.dom().contains(k));
        }
    }
}

} // verus!
