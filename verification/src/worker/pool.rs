//! How a pool of workers finds its work.
use vstd::prelude::*;

use crate::util::priority::HasStaticPriority;
use crate::util::table::{IdMap, IdSet};
use crate::util::text::usize_text;
use crate::worker::{FindWorkError, FindWorkResult, WorkSource};

verus! {

/// The place that is reached from `start` after `k` steps round a ring of `len` places.
pub open spec fn ring_place(start: int, len: int, k: int) -> int {
    if start + k < len {
        start + k
    } else {
        start + k - len
    }
}

/// How many steps round a ring of `len` places lead from `start` to `i`.
pub open spec fn ring_distance(start: int, len: int, i: int) -> int {
    if i >= start {
        i - start
    } else {
        i - start + len
    }
}

/// Values that are visited in turn. Each thread has a place of its own at which it goes on.
pub struct Bucket<T> {
    next_idx: IdMap<u64, usize>,
    values: Vec<T>,
}

impl<T> Bucket<T> {
    /// The values.
    pub closed spec fn items(&self) -> Seq<T> {
        self.values@
    }

    /// The place at which a thread goes on.
    pub closed spec fn next_of(&self, thread: u64) -> usize {
        if self.next_idx@.contains_key(thread) {
            self.next_idx@[thread]
        } else {
            0
        }
    }

    /// Every thread goes on at a value, or at the first place if there is no value.
    pub closed spec fn wf(&self) -> bool {
        &&& self.next_idx.wf()
        &&& forall|t: u64|
            #![trigger self.next_idx@.contains_key(t)]
            self.next_idx@.contains_key(t) ==> self.next_idx@[t] == 0 || self.next_idx@[t] < self.values@.len()
    }

    /// Every thread goes on at a value, if there is one.
    pub proof fn lemma_next_in_range(&self, thread: u64)
        requires
            self.wf(),
        ensures
            self.next_of(thread) < self.items().len() || self.next_of(thread) == 0,
    {
    }

    /// The given values, of which every thread begins with the first.
    pub fn from_values(values: Vec<T>) -> (r: Self)
        ensures
            r.wf(),
            r.items() == values@,
            forall|t: u64| #[trigger] r.next_of(t) == 0,
    {
        Bucket { next_idx: IdMap::new(), values }
    }

    /// Adds a value.
    pub fn push(&mut self, value: T)
        requires
            old(self).wf(),
        ensures
            final(self).wf(),
            final(self).items() == old(self).items().push(value),
            forall|t: u64| #[trigger] final(self).next_of(t) == old(self).next_of(t),
    {
        let ghost pre = *self;
        self.values.push(value);
        assert forall|t: u64|
            #![trigger self.next_idx@.contains_key(t)]
            self.next_idx@.contains_key(t) implies self.next_idx@[t] == 0 || self.next_idx@[t] < self.values@.len() by {
            assert(pre.next_idx@.contains_key(t));
        }
    }

    /// The number of values.
    pub fn len(&self) -> (r: usize)
        ensures
            r == self.items().len(),
    {
        self.values.len()
    }

    /// Begins a lap over all values.
    pub fn iter_ring(&self) -> (r: BucketIterRing)
        ensures
            r.end_idx == (if self.items().len() == 0 {
                Some(0usize)
            } else {
                None
            }),
    {
        if self.values.len() == 0 {
            BucketIterRing { end_idx: Some(0) }
        } else {
            BucketIterRing { end_idx: None }
        }
    }
}

/// A lap over the values of a bucket.
#[derive(Debug, Clone, Copy, PartialEq, Eq, Structural)]
pub struct BucketIterRing {
    /// Where the lap ends, once it has begun.
    pub end_idx: Option<usize>,
}

impl BucketIterRing {
    /// The place of the next value, and the thread goes on after it; `None` at the end of the lap.
    pub fn next<T>(&mut self, bucket: &mut Bucket<T>, thread: u64) -> (r: Option<usize>)
        requires
            old(bucket).wf(),
            old(bucket).items().len() == 0 ==> old(self).end_idx == Some(0usize),
        ensures
            final(bucket).wf(),
            final(bucket).items() == old(bucket).items(),
            r == (if old(self).end_idx == Some(old(bucket).next_of(thread)) {
                None
            } else {
                Some(old(bucket).next_of(thread))
            }),
            r.is_none() ==> *final(self) == *old(self) && final(bucket).next_of(thread) == old(bucket).next_of(
                thread,
            ),
            r.is_some() ==> {
                &&& r.unwrap() < old(bucket).items().len()
                &&& final(self).end_idx == (match old(self).end_idx {
                    Some(end) => Some(end),
                    None => r,
                })
                &&& final(bucket).next_of(thread) == ring_place(
                    r.unwrap() as int,
                    old(bucket).items().len() as int,
                    1,
                )
            },
            forall|t: u64| t != thread ==> #[trigger] final(bucket).next_of(t) == old(bucket).next_of(t),
    {
        let ghost pre = *bucket;
        proof {
            bucket.lemma_next_in_range(thread);
        }
        let current: usize = match bucket.next_idx.get(&thread) {
            Some(idx) => *idx,
            None => 0,
        };
        if let Some(end_idx) = self.end_idx {
            if end_idx == current {
                return None;
            }
        } else {
            self.end_idx = Some(current);
        }
        let len: usize = bucket.values.len();
        assert(current < len);
        let mut following: usize = current + 1;
        if following >= len {
            following = 0;
        }
        let _ = bucket.next_idx.insert(thread, following);
        assert forall|t: u64|
            #![trigger bucket.next_idx@.contains_key(t)]
            bucket.next_idx@.contains_key(t) implies bucket.next_idx@[t] == 0 || bucket.next_idx@[t]
            < bucket.values@.len() by {
            if t != thread {
                assert(pre.next_idx@.contains_key(t));
            }
        }
        Some(current)
    }
}

/// A source of work in a pool.
#[derive(Debug)]
pub struct WorkSourceBucketItem<S> {
    pub source: S,
    /// The source has reported that it is disconnected.
    pub expired: bool,
}

/// The mathematical value of a [`WorkSourceBucketItem`].
pub struct ItemView<M> {
    pub model: M,
    pub expired: bool,
}

/// An item after it was asked for work.
pub open spec fn asked_item<S: WorkSource>(item: ItemView<S::Model>) -> ItemView<S::Model> {
    ItemView {
        model: S::asked(item.model),
        expired: item.expired || S::answer(item.model) == Err::<u64, FindWorkError>(FindWorkError::Disconnected),
    }
}

impl<S: WorkSource> WorkSourceBucketItem<S> {
    /// What there is to know of the item.
    pub open spec fn item(&self) -> ItemView<S::Model> {
        ItemView { model: self.source.model(), expired: self.expired }
    }

    /// Asks the source for work, and notes if it is disconnected.
    pub fn find_work(&mut self) -> (r: FindWorkResult)
        ensures
            r == S::answer(old(self).item().model),
            final(self).item() == asked_item::<S>(old(self).item()),
    {
        let result = self.source.find_work();
        match &result {
            Err(FindWorkError::Disconnected) => {
                self.expired = true;
            },
            _ => {},
        }
        result
    }
}

/// The mathematical value of the sources of one priority.
#[verifier::ext_equal]
pub struct BucketModel<M> {
    pub items: Seq<ItemView<M>>,
    /// Where each thread goes on.
    pub next: spec_fn(u64) -> usize,
}

/// The number of sources that are asked before one has work, counted from where the thread goes on;
/// `None` if none has.
pub open spec fn first_hit<S: WorkSource>(items: Seq<ItemView<S::Model>>, start: int, from: int) -> Option<int>
    decreases items.len() - from,
{
    if from >= items.len() {
        None
    } else if S::answer(items[ring_place(start, items.len() as int, from)].model).is_ok() {
        Some(from)
    } else {
        first_hit::<S>(items, start, from + 1)
    }
}

/// Items of which the first `count`, counted from `start`, were asked.
pub open spec fn visited<S: WorkSource>(items: Seq<ItemView<S::Model>>, start: int, count: int) -> Seq<
    ItemView<S::Model>,
> {
    Seq::new(
        items.len(),
        |i: int|
            if ring_distance(start, items.len() as int, i) < count {
                asked_item::<S>(items[i])
            } else {
                items[i]
            },
    )
}

/// The number of sources of a bucket that a thread asks.
pub open spec fn asked_count<S: WorkSource>(bucket: BucketModel<S::Model>, thread: u64) -> int {
    match first_hit::<S>(bucket.items, (bucket.next)(thread) as int, 0) {
        Some(k) => k + 1,
        None => bucket.items.len() as int,
    }
}

/// The work that a thread finds in a bucket.
pub open spec fn found_in<S: WorkSource>(bucket: BucketModel<S::Model>, thread: u64) -> Option<u64> {
    let start = (bucket.next)(thread) as int;
    match first_hit::<S>(bucket.items, start, 0) {
        Some(k) => Some(S::answer(bucket.items[ring_place(start, bucket.items.len() as int, k)].model)->Ok_0),
        None => None,
    }
}

/// Whether a thread meets a disconnected source in a bucket.
pub open spec fn meets_expired<S: WorkSource>(bucket: BucketModel<S::Model>, thread: u64) -> bool {
    exists|i: int|
        #![trigger bucket.items[i]]
        0 <= i < bucket.items.len() && ring_distance(
            (bucket.next)(thread) as int,
            bucket.items.len() as int,
            i,
        ) < asked_count::<S>(bucket, thread) && S::answer(bucket.items[i].model) == Err::<u64, FindWorkError>(
            FindWorkError::Disconnected,
        )
}

/// A bucket after a thread has looked for work in it.
pub open spec fn scanned<S: WorkSource>(bucket: BucketModel<S::Model>, thread: u64) -> BucketModel<S::Model> {
    let start = (bucket.next)(thread) as int;
    let count = asked_count::<S>(bucket, thread);
    BucketModel {
        items: visited::<S>(bucket.items, start, count),
        next: |t: u64|
            if t == thread {
                ring_place(start, bucket.items.len() as int, count) as usize
            } else {
                (bucket.next)(t)
            },
    }
}

/// A bucket without its expired sources; every thread begins with the first one again.
pub open spec fn cleared<M>(bucket: BucketModel<M>) -> BucketModel<M> {
    BucketModel { items: bucket.items.filter(|item: ItemView<M>| !item.expired), next: |t: u64| 0usize }
}

impl<S: WorkSource> Bucket<WorkSourceBucketItem<S>> {
    /// What there is to know of the sources.
    pub open spec fn model(&self) -> BucketModel<S::Model> {
        BucketModel {
            items: Seq::new(self.items().len(), |i: int| self.items()[i].item()),
            next: |t: u64| self.next_of(t),
        }
    }

    /// Removes the expired sources.
    fn clear_expired(&mut self)
        requires
            old(self).wf(),
        ensures
            final(self).wf(),
            final(self).model() == cleared(old(self).model()),
    {
        let ghost pre = self.model();
        let ghost keep = |item: ItemView<S::Model>| !item.expired;
        let mut kept: Vec<WorkSourceBucketItem<S>> = Vec::new();
        let mut i: usize = 0;
        let n: usize = self.values.len();
        proof {
            reveal(Seq::filter);
            assert(pre.items.take(0).filter(keep) =~= Seq::<ItemView<S::Model>>::empty());
            assert(Seq::new(kept@.len(), |j: int| kept@[j].item()) =~= pre.items.take(0).filter(keep));
        }
        while i < n
            invariant
                i <= n,
                n == pre.items.len(),
                keep == (|item: ItemView<S::Model>| !item.expired),
                self.values@.len() == n - i,
                forall|j: int| 0 <= j < n - i ==> (#[trigger] self.values@[j]).item() == pre.items[i + j],
                Seq::new(kept@.len(), |j: int| kept@[j].item()) == pre.items.take(i as int).filter(keep),
            decreases n - i,
        {
            let ghost before = self.values@;
            let ghost kept_before = kept@;
            let item = self.values.remove(0);
            assert(item == before[0]);
            assert(item.item() == pre.items[i as int]);
            proof {
                reveal(Seq::filter);
                assert(pre.items.take(i + 1).drop_last() =~= pre.items.take(i as int));
                assert(pre.items.take(i + 1).last() == pre.items[i as int]);
            }
            if !item.expired {
                kept.push(item);
                assert(Seq::new(kept@.len(), |j: int| kept@[j].item()) =~= Seq::new(
                    kept_before.len(),
                    |j: int| kept_before[j].item(),
                ).push(pre.items[i as int]));
            }
            assert forall|j: int| 0 <= j < n - i - 1 implies (#[trigger] self.values@[j]).item() == pre.items[i + 1
                + j] by {
                assert(self.values@[j] == before[j + 1]);
            }
            i += 1;
        }
        assert(pre.items.take(n as int) =~= pre.items);
        self.values = kept;
        self.next_idx.clear();
        assert(self.model().items =~= pre.items.filter(keep));
        assert(self.model() =~= cleared(pre));
    }

    /// Sets whom the sources wake.
    fn set_wakers(&mut self, waker: u64)
        requires
            old(self).wf(),
        ensures
            final(self).wf(),
            final(self).model() == with_wakers::<S>(old(self).model(), waker),
    {
        let ghost pre = *self;
        let mut i: usize = 0;
        let n: usize = self.values.len();
        while i < n
            invariant
                i <= n,
                n == pre.values@.len(),
                n == self.values@.len(),
                self.next_idx == pre.next_idx,
                forall|j: int| i <= j < n ==> #[trigger] self.values@[j] == pre.values@[j],
                forall|j: int|
                    0 <= j < i ==> (#[trigger] self.values@[j]).item() == (ItemView {
                        model: S::with_waker(pre.values@[j].item().model, waker),
                        expired: pre.values@[j].expired,
                    }),
            decreases n - i,
        {
            let ghost before = self.values@;
            assert(self.values@[i as int] == pre.values@[i as int]);
            self.values[i].source.set_worker_waker(waker);
            assert forall|j: int| 0 <= j < i + 1 implies (#[trigger] self.values@[j]).item() == (ItemView {
                model: S::with_waker(pre.values@[j].item().model, waker),
                expired: pre.values@[j].expired,
            }) by {
                if j < i {
                    assert(self.values@[j] == before[j]);
                }
            }
            i += 1;
        }
        assert(self.model() =~= with_wakers::<S>(pre.model(), waker));
    }

    /// Looks for work, for a thread; whether a disconnected source was met comes with it.
    fn find_work(&mut self, thread: u64) -> (r: (Option<u64>, bool))
        requires
            old(self).wf(),
        ensures
            final(self).wf(),
            final(self).model() == scanned::<S>(old(self).model(), thread),
            r.0 == found_in::<S>(old(self).model(), thread),
            r.1 == meets_expired::<S>(old(self).model(), thread),
    {
        let ghost pre = self.model();
        let ghost items = pre.items;
        let ghost len = items.len() as int;
        let ghost start = self.next_of(thread) as int;
        proof {
            self.lemma_next_in_range(thread);
        }
        let mut ring = self.iter_ring();
        let mut expired = false;
        let ghost mut k: int = 0;
        assert(self.model().items =~= visited::<S>(items, start, 0));
        loop
            invariant
                self.wf(),
                pre == old(self).model(),
                items == pre.items,
                len == items.len(),
                start == (pre.next)(thread),
                start < len || start == 0,
                0 <= k <= len,
                self.items().len() == len,
                self.model().items == visited::<S>(items, start, k),
                self.next_of(thread) == ring_place(start, len, k) || len == 0 && self.next_of(thread) == 0,
                forall|t: u64| t != thread ==> #[trigger] self.next_of(t) == (pre.next)(t),
                ring.end_idx == (if len == 0 {
                    Some(0usize)
                } else if k == 0 {
                    None
                } else {
                    Some(start as usize)
                }),
                first_hit::<S>(items, start, 0) == first_hit::<S>(items, start, k),
                expired == (exists|i: int|
                    #![trigger items[i]]
                    0 <= i < len && ring_distance(start, len, i) < k && S::answer(items[i].model) == Err::<
                        u64,
                        FindWorkError,
                    >(FindWorkError::Disconnected)),
            decreases len - k,
        {
            let ghost before = *self;
            match ring.next(self, thread) {
                Some(idx) => {
                    assert(k < len);
                    assert(idx == ring_place(start, len, k));
                    assert(ring_distance(start, len, idx as int) == k);
                    assert(self.items() == before.items());
                    assert(self.model().items =~= before.model().items);
                    assert(before.model().items[idx as int] == items[idx as int]);
                    assert(self.values@[idx as int].item() == items[idx as int]);
                    let ghost mid = *self;
                    let result = self.values[idx].find_work();
                    assert forall|t: u64| t != thread implies #[trigger] self.next_of(t) == (pre.next)(t) by {
                        assert(mid.next_of(t) == before.next_of(t));
                    }
                    assert(self.next_of(thread) == mid.next_of(thread));
                    proof {
                        let after = visited::<S>(items, start, k + 1);
                        assert forall|i: int| 0 <= i < len implies self.model().items[i] == after[i] by {
                            if i != idx {
                                assert(self.values@[i] == mid.values@[i]);
                                assert(mid.model().items[i] == visited::<S>(items, start, k)[i]);
                                assert(ring_distance(start, len, i) != k);
                            }
                        }
                        assert(self.model().items =~= after);
                        assert(ring_place(start, len, k + 1) == ring_place(idx as int, len, 1)
                            || ring_place(start, len, k + 1) == start && k + 1 == len);
                        assert forall|i: int| 0 <= i < len && ring_distance(start, len, i) < k + 1 implies (
                        ring_distance(start, len, i) < k || i == idx) by {}
                        assert(items[idx as int] == items[idx as int]);
                    }
                    match result {
                        Ok(work) => {
                            assert(first_hit::<S>(items, start, k) == Some(k));
                            assert(asked_count::<S>(pre, thread) == k + 1);
                            assert(self.model() =~= scanned::<S>(pre, thread));
                            return (Some(work), expired);
                        },
                        Err(FindWorkError::NoWork) => {},
                        Err(FindWorkError::Disconnected) => {
                            expired = true;
                        },
                    }
                    proof {
                        k = k + 1;
                    }
                },
                None => {
                    assert(k == len);
                    assert(self.items() == before.items());
                    assert(self.model().items =~= before.model().items);
                    assert(asked_count::<S>(pre, thread) == len);
                    assert(self.model() =~= scanned::<S>(pre, thread));
                    return (None, expired);
                },
            }
        }
    }
}

/// A bucket whose sources wake somebody.
pub open spec fn with_wakers<S: WorkSource>(bucket: BucketModel<S::Model>, waker: u64) -> BucketModel<S::Model> {
    BucketModel {
        items: Seq::new(
            bucket.items.len(),
            |i: int|
                ItemView {
                    model: S::with_waker(bucket.items[i].model, waker),
                    expired: bucket.items[i].expired,
                },
        ),
        next: bucket.next,
    }
}

/// The mathematical value of a [`State`].
#[verifier::ext_equal]
pub struct PoolModel<M> {
    /// The priorities that there are sources of, the highest first.
    pub ranks: Seq<int>,
    /// The sources of each priority.
    pub buckets: Seq<BucketModel<M>>,
    /// Whether there may be expired sources.
    pub has_expired: bool,
    /// The threads that are asleep, or about to be.
    pub sleepers: Seq<u64>,
}

/// The work that is found by looking through buckets in turn.
pub open spec fn scan_result<S: WorkSource>(buckets: Seq<BucketModel<S::Model>>, thread: u64, from: int) -> Option<
    u64,
>
    decreases buckets.len() - from,
{
    if from >= buckets.len() {
        None
    } else {
        match found_in::<S>(buckets[from], thread) {
            Some(work) => Some(work),
            None => scan_result::<S>(buckets, thread, from + 1),
        }
    }
}

/// The number of buckets that are looked through until work is found.
pub open spec fn scan_count<S: WorkSource>(buckets: Seq<BucketModel<S::Model>>, thread: u64, from: int) -> int
    decreases buckets.len() - from,
{
    if from >= buckets.len() {
        buckets.len() as int
    } else if found_in::<S>(buckets[from], thread).is_some() {
        from + 1
    } else {
        scan_count::<S>(buckets, thread, from + 1)
    }
}

/// Buckets of which the first `count` were looked through.
pub open spec fn scanned_up_to<S: WorkSource>(buckets: Seq<BucketModel<S::Model>>, thread: u64, count: int) -> Seq<
    BucketModel<S::Model>,
> {
    Seq::new(
        buckets.len(),
        |i: int|
            if i < count {
                scanned::<S>(buckets[i], thread)
            } else {
                buckets[i]
            },
    )
}

/// Where a priority belongs in a descending list of priorities.
pub open spec fn rank_place(ranks: Seq<int>, rank: int, from: int) -> int
    decreases ranks.len() - from,
{
    if from >= ranks.len() {
        ranks.len() as int
    } else if ranks[from] <= rank {
        from
    } else {
        rank_place(ranks, rank, from + 1)
    }
}

/// Buckets without their expired sources.
pub open spec fn all_cleared<M>(buckets: Seq<BucketModel<M>>) -> Seq<BucketModel<M>> {
    Seq::new(buckets.len(), |i: int| cleared(buckets[i]))
}

/// The buckets that a search for work looks through: expired sources are removed first.
pub open spec fn before_scan<M>(pool: PoolModel<M>) -> Seq<BucketModel<M>> {
    if pool.has_expired {
        all_cleared(pool.buckets)
    } else {
        pool.buckets
    }
}

/// A pool after a thread has looked for work.
pub open spec fn searched<S: WorkSource>(pool: PoolModel<S::Model>, thread: u64) -> PoolModel<S::Model> {
    let buckets = before_scan(pool);
    let count = scan_count::<S>(buckets, thread, 0);
    PoolModel {
        buckets: scanned_up_to::<S>(buckets, thread, count),
        has_expired: exists|i: int|
            #![trigger buckets[i]]
            0 <= i < count && meets_expired::<S>(buckets[i], thread),
        ..pool
    }
}

/// A pool with one more source.
pub open spec fn with_source<M>(pool: PoolModel<M>, rank: int, source: M) -> PoolModel<M> {
    let place = rank_place(pool.ranks, rank, 0);
    let item = ItemView { model: source, expired: false };
    if place < pool.ranks.len() && pool.ranks[place] == rank {
        let bucket = pool.buckets[place];
        PoolModel {
            buckets: pool.buckets.update(place, BucketModel { items: bucket.items.push(item), ..bucket }),
            sleepers: Seq::empty(),
            ..pool
        }
    } else {
        PoolModel {
            ranks: pool.ranks.insert(place, rank),
            buckets: pool.buckets.insert(place, BucketModel { items: seq![item], next: |t: u64| 0usize }),
            sleepers: Seq::empty(),
            ..pool
        }
    }
}

/// A pool after a thread has announced that it is about to sleep. The first one to do so sets whom
/// the sources wake.
pub open spec fn with_sleeper<S: WorkSource>(pool: PoolModel<S::Model>, thread: u64, waker: u64) -> PoolModel<
    S::Model,
> {
    if pool.sleepers.contains(thread) {
        pool
    } else {
        PoolModel {
            buckets: if pool.sleepers.len() == 0 {
                Seq::new(pool.buckets.len(), |i: int| with_wakers::<S>(pool.buckets[i], waker))
            } else {
                pool.buckets
            },
            sleepers: pool.sleepers.push(thread),
            ..pool
        }
    }
}

/// What the workers of a pool share.
pub struct State<P, S> {
    work_sources: Vec<(P, Bucket<WorkSourceBucketItem<S>>)>,
    has_expired_sources: bool,
    sleepers: IdSet<u64>,
}

/// What a worker is to do.
#[derive(Debug, Clone, Copy, PartialEq, Eq, Structural)]
pub enum WorkerAction {
    /// End.
    Exit,
    /// Execute the work.
    Execute(u64),
    /// Sleep until it is woken.
    Park,
    /// Look for work once more.
    Again,
}

impl<P: HasStaticPriority, S: WorkSource> State<P, S> {
    /// What there is to know of the pool.
    pub closed spec fn model(&self) -> PoolModel<S::Model> {
        PoolModel {
            ranks: Seq::new(self.work_sources@.len(), |i: int| self.work_sources@[i].0.rank()),
            buckets: Seq::new(self.work_sources@.len(), |i: int| self.work_sources@[i].1.model()),
            has_expired: self.has_expired_sources,
            sleepers: self.sleepers@,
        }
    }

    /// Each priority has one bucket, and higher ones come first.
    pub closed spec fn wf(&self) -> bool {
        &&& self.sleepers.wf()
        &&& forall|i: int| 0 <= i < self.work_sources@.len() ==> (#[trigger] self.work_sources@[i]).1.wf()
        &&& forall|i: int, j: int|
            0 <= i < j < self.work_sources@.len() ==> (#[trigger] self.work_sources@[i]).0.rank() > (
            #[trigger] self.work_sources@[j]).0.rank()
    }

    /// Each priority has one bucket, and higher ones come first; no thread sleeps twice.
    pub proof fn lemma_in_order(&self)
        requires
            self.wf(),
        ensures
            self.model().ranks.len() == self.model().buckets.len(),
            self.model().sleepers.no_duplicates(),
            forall|i: int, j: int|
                0 <= i < j < self.model().ranks.len() ==> (#[trigger] self.model().ranks[i]) > (
                #[trigger] self.model().ranks[j]),
    {
    }

    /// There are no sources and no sleepers.
    pub fn new() -> (r: Self)
        ensures
            r.wf(),
            r.model() == (PoolModel::<S::Model> {
                ranks: Seq::empty(),
                buckets: Seq::empty(),
                has_expired: false,
                sleepers: Seq::empty(),
            }),
    {
        let r = State { work_sources: Vec::new(), has_expired_sources: false, sleepers: IdSet::new() };
        assert(r.model() =~= (PoolModel::<S::Model> {
            ranks: Seq::empty(),
            buckets: Seq::empty(),
            has_expired: false,
            sleepers: Seq::empty(),
        }));
        r
    }

    /// Empties the list of sleepers; they are to be woken.
    fn drain_sleepers(&mut self) -> (r: Vec<u64>)
        requires
            old(self).sleepers.wf(),
        ensures
            r@ == old(self).sleepers@,
            final(self).sleepers.wf(),
            final(self).sleepers@ == Seq::<u64>::empty(),
            final(self).work_sources == old(self).work_sources,
            final(self).has_expired_sources == old(self).has_expired_sources,
    {
        let mut r: Vec<u64> = Vec::new();
        let mut i: usize = 0;
        while i < self.sleepers.len()
            invariant
                *self == *old(self),
                i <= self.sleepers@.len(),
                r@ == self.sleepers@.take(i as int),
            decreases self.sleepers@.len() - i,
        {
            r.push(*self.sleepers.at(i));
            assert(self.sleepers@.take(i as int).push(self.sleepers@[i as int]) =~= self.sleepers@.take(i + 1));
            i += 1;
        }
        assert(self.sleepers@.take(self.sleepers@.len() as int) =~= self.sleepers@);
        self.sleepers.clear();
        r
    }

    /// Adds a source; the sleepers, which are to be woken.
    pub fn insert_source(&mut self, priority: P, source: S) -> (r: Vec<u64>)
        requires
            old(self).wf(),
        ensures
            final(self).wf(),
            final(self).model() == with_source(old(self).model(), priority.rank(), source.model()),
            r@ == old(self).model().sleepers,
    {
        let ghost pre = *self;
        let ghost ranks = self.model().ranks;
        let ghost rank = priority.rank();
        let ghost source_model = source.model();
        let mut i: usize = 0;
        while i < self.work_sources.len() && self.work_sources[i].0.outranks(&priority)
            invariant
                *self == pre,
                ranks == pre.model().ranks,
                rank == priority.rank(),
                i <= self.work_sources@.len(),
                rank_place(ranks, rank, 0) == rank_place(ranks, rank, i as int),
                forall|j: int| 0 <= j < i ==> (#[trigger] self.work_sources@[j]).0.rank() > rank,
            decreases self.work_sources@.len() - i,
        {
            assert(ranks[i as int] == self.work_sources@[i as int].0.rank());
            i += 1;
        }
        let item = WorkSourceBucketItem { source, expired: false };
        assert(i < self.work_sources@.len() ==> ranks[i as int] == self.work_sources@[i as int].0.rank());
        assert(rank_place(ranks, rank, 0) == i);
        if i < self.work_sources.len() && !priority.outranks(&self.work_sources[i].0) {
            self.work_sources[i].1.push(item);
            proof {
                let bucket = pre.model().buckets[i as int];
                let pushed = BucketModel {
                    items: bucket.items.push(ItemView { model: source_model, expired: false }),
                    ..bucket
                };
                assert(self.work_sources@[i as int].1.model() =~= pushed);
                assert forall|j: int| 0 <= j < self.work_sources@.len() && j != i implies #[trigger] self.work_sources@[j]
                    == pre.work_sources@[j] by {}
                assert(self.work_sources@[i as int].0 == pre.work_sources@[i as int].0);
                assert(self.model().buckets =~= pre.model().buckets.update(i as int, pushed));
                assert(self.model().ranks =~= pre.model().ranks);
            }
        } else {
            let mut values: Vec<WorkSourceBucketItem<S>> = Vec::new();
            values.push(item);
            let bucket = Bucket::from_values(values);
            proof {
                let fresh = BucketModel {
                    items: seq![ItemView { model: source_model, expired: false }],
                    next: |t: u64| 0usize,
                };
                assert(bucket.model() =~= fresh);
            }
            self.work_sources.insert(i, (priority, bucket));
            proof {
                assert forall|j: int| 0 <= j < self.work_sources@.len() implies #[trigger] self.work_sources@[j] == (
                if j < i {
                    pre.work_sources@[j]
                } else if j == i {
                    (priority, bucket)
                } else {
                    pre.work_sources@[j - 1]
                }) by {}
                assert(self.model().ranks =~= pre.model().ranks.insert(i as int, rank));
                assert(self.model().buckets =~= pre.model().buckets.insert(i as int, bucket.model()));
            }
        }
        let ghost mid = *self;
        let r = self.drain_sleepers();
        proof {
            assert(self.model() =~= with_source(pre.model(), rank, source_model));
            assert forall|a: int, b: int| 0 <= a < b < self.work_sources@.len() implies (
            #[trigger] self.work_sources@[a]).0.rank() > (#[trigger] self.work_sources@[b]).0.rank() by {}
        }
        r
    }

    /// Looks for work, for a thread: where the priority is highest first, and at sources of the same
    /// priority in turn.
    pub fn find_work(&mut self, thread: u64) -> (r: Option<u64>)
        requires
            old(self).wf(),
        ensures
            final(self).wf(),
            final(self).model() == searched::<S>(old(self).model(), thread),
            r == scan_result::<S>(before_scan(old(self).model()), thread, 0),
    {
        let ghost pre = *self;
        if self.has_expired_sources {
            self.has_expired_sources = false;
            self.clear_all();
        }
        let ghost buckets = self.model().buckets;
        let ghost ranks = self.model().ranks;
        let ghost base = *self;
        assert(buckets =~= before_scan(pre.model()));
        let n: usize = self.work_sources.len();
        let mut i: usize = 0;
        let mut expired = false;
        let mut output: Option<u64> = None;
        assert(buckets =~= scanned_up_to::<S>(buckets, thread, 0));
        while i < n && output.is_none()
            invariant
                self.wf(),
                i <= n,
                n == self.work_sources@.len(),
                n == buckets.len(),
                self.sleepers == base.sleepers,
                self.model().ranks == ranks,
                self.model().buckets == scanned_up_to::<S>(buckets, thread, i as int),
                output.is_none() ==> scan_count::<S>(buckets, thread, 0) == scan_count::<S>(buckets, thread, i as int)
                    && scan_result::<S>(buckets, thread, 0) == scan_result::<S>(buckets, thread, i as int),
                output.is_some() ==> scan_count::<S>(buckets, thread, 0) == i && scan_result::<S>(buckets, thread, 0)
                    == output,
                expired == (exists|j: int|
                    #![trigger buckets[j]]
                    0 <= j < i && meets_expired::<S>(buckets[j], thread)),
            decreases n - i,
        {
            let ghost before = *self;
            assert(self.model().buckets[i as int] == self.work_sources@[i as int].1.model());
            assert(self.model().buckets[i as int] == buckets[i as int]);
            let (found, met) = self.work_sources[i].1.find_work(thread);
            proof {
                assert forall|j: int| 0 <= j < n && j != i implies #[trigger] self.work_sources@[j]
                    == before.work_sources@[j] by {}
                assert(self.work_sources@[i as int].0 == before.work_sources@[i as int].0);
                assert(self.model().ranks =~= before.model().ranks);
                let after = scanned_up_to::<S>(buckets, thread, i + 1);
                assert forall|j: int| 0 <= j < n implies self.model().buckets[j] == after[j] by {
                    if j != i {
                        assert(before.model().buckets[j] == scanned_up_to::<S>(buckets, thread, i as int)[j]);
                        assert(self.work_sources@[j] == before.work_sources@[j]);
                    }
                }
                assert(self.model().buckets =~= after);
            }
            expired = expired || met;
            output = found;
            i += 1;
        }
        assert(scan_count::<S>(buckets, thread, 0) == i);
        self.has_expired_sources = expired;
        assert(self.model() =~= searched::<S>(pre.model(), thread));
        output
    }

    /// Removes all expired sources.
    fn clear_all(&mut self)
        requires
            old(self).wf(),
        ensures
            final(self).wf(),
            final(self).model() == (PoolModel { buckets: all_cleared(old(self).model().buckets), ..old(self).model() }),
            final(self).sleepers == old(self).sleepers,
            final(self).work_sources@.len() == old(self).work_sources@.len(),
    {
        let ghost pre = *self;
        let n: usize = self.work_sources.len();
        let mut i: usize = 0;
        while i < n
            invariant
                pre.wf(),
                i <= n,
                n == pre.work_sources@.len(),
                n == self.work_sources@.len(),
                self.sleepers == pre.sleepers,
                self.has_expired_sources == pre.has_expired_sources,
                forall|j: int| 0 <= j < n ==> (#[trigger] self.work_sources@[j]).1.wf(),
                forall|j: int| 0 <= j < n ==> (#[trigger] self.work_sources@[j]).0 == pre.work_sources@[j].0,
                forall|j: int| i <= j < n ==> (#[trigger] self.work_sources@[j]) == pre.work_sources@[j],
                forall|j: int|
                    0 <= j < i ==> (#[trigger] self.work_sources@[j]).1.model() == cleared(
                        pre.work_sources@[j].1.model(),
                    ),
            decreases n - i,
        {
            let ghost before = self.work_sources@;
            assert(self.work_sources@[i as int] == pre.work_sources@[i as int]);
            self.work_sources[i].1.clear_expired();
            assert forall|j: int| 0 <= j < n && j != i implies #[trigger] self.work_sources@[j] == before[j] by {}
            i += 1;
        }
        assert(self.model() =~= (PoolModel { buckets: all_cleared(pre.model().buckets), ..pre.model() }));
    }

    /// A thread announces that it is about to sleep; whether it had done so before.
    pub fn insert_sleeper(&mut self, thread: u64, waker: u64) -> (r: bool)
        requires
            old(self).wf(),
        ensures
            final(self).wf(),
            final(self).model() == with_sleeper::<S>(old(self).model(), thread, waker),
            r == old(self).model().sleepers.contains(thread),
    {
        let ghost pre = *self;
        if self.sleepers.contains(&thread) {
            return true;
        }
        let create_waker = self.sleepers.is_empty();
        let _ = self.sleepers.insert(thread);
        assert(self.sleepers@ == pre.sleepers@.push(thread));
        if create_waker {
            let n: usize = self.work_sources.len();
            let mut i: usize = 0;
            while i < n
                invariant
                    pre.wf(),
                    self.sleepers.wf(),
                    self.sleepers@ == pre.sleepers@.push(thread),
                    self.has_expired_sources == pre.has_expired_sources,
                    i <= n,
                    n == pre.work_sources@.len(),
                    n == self.work_sources@.len(),
                    forall|j: int| 0 <= j < n ==> (#[trigger] self.work_sources@[j]).1.wf(),
                    forall|j: int| 0 <= j < n ==> (#[trigger] self.work_sources@[j]).0 == pre.work_sources@[j].0,
                    forall|j: int| i <= j < n ==> (#[trigger] self.work_sources@[j]) == pre.work_sources@[j],
                    forall|j: int|
                        0 <= j < i ==> (#[trigger] self.work_sources@[j]).1.model() == with_wakers::<S>(
                            pre.work_sources@[j].1.model(),
                            waker,
                        ),
                decreases n - i,
            {
                let ghost before = self.work_sources@;
                assert(self.work_sources@[i as int] == pre.work_sources@[i as int]);
                self.work_sources[i].1.set_wakers(waker);
                assert forall|j: int| 0 <= j < n && j != i implies #[trigger] self.work_sources@[j] == before[j] by {}
                i += 1;
            }
        }
        assert(self.model() =~= with_sleeper::<S>(pre.model(), thread, waker));
        false
    }

    /// A thread is not about to sleep any more.
    pub fn remove_sleeper(&mut self, thread: u64)
        requires
            old(self).wf(),
        ensures
            final(self).wf(),
            final(self).model() == (PoolModel {
                sleepers: crate::util::table::seq_without(old(self).model().sleepers, thread),
                ..old(self).model()
            }),
    {
        let ghost pre = *self;
        let _ = self.sleepers.remove(&thread);
        assert(self.model() =~= (PoolModel {
            sleepers: crate::util::table::seq_without(pre.model().sleepers, thread),
            ..pre.model()
        }));
    }

    /// There may be work again; the sleepers, which are to be woken.
    pub fn wake(&mut self) -> (r: Vec<u64>)
        requires
            old(self).wf(),
        ensures
            final(self).wf(),
            final(self).model() == (PoolModel { sleepers: Seq::empty(), ..old(self).model() }),
            r@ == old(self).model().sleepers,
    {
        let ghost pre = *self;
        let r = self.drain_sleepers();
        assert(self.model() =~= (PoolModel { sleepers: Seq::empty(), ..pre.model() }));
        r
    }

    /// What a worker is to do next. It sleeps only once it has found no work twice: before and after
    /// it has announced that it is about to.
    pub fn next_action(&mut self, thread: u64, exiting: bool, waker: u64) -> (r: WorkerAction)
        requires
            old(self).wf(),
        ensures
            final(self).wf(),
            exiting ==> r == WorkerAction::Exit && final(self).model() == old(self).model(),
            !exiting ==> ({
                let after = searched::<S>(old(self).model(), thread);
                match scan_result::<S>(before_scan(old(self).model()), thread, 0) {
                    Some(work) => {
                        &&& r == WorkerAction::Execute(work)
                        &&& final(self).model() == (PoolModel {
                            sleepers: crate::util::table::seq_without(after.sleepers, thread),
                            ..after
                        })
                    },
                    None => {
                        &&& r == (if old(self).model().sleepers.contains(thread) {
                            WorkerAction::Park
                        } else {
                            WorkerAction::Again
                        })
                        &&& final(self).model() == with_sleeper::<S>(after, thread, waker)
                    },
                }
            }),
    {
        if exiting {
            return WorkerAction::Exit;
        }
        match self.find_work(thread) {
            Some(work) => {
                self.remove_sleeper(thread);
                WorkerAction::Execute(work)
            },
            None => {
                if self.insert_sleeper(thread, waker) {
                    WorkerAction::Park
                } else {
                    WorkerAction::Again
                }
            },
        }
    }
}

/// The number of workers if nobody knows better.
pub const DEFAULT_WORKER_COUNT: usize = 1;

/// The name of worker number `idx`.
pub open spec fn worker_name(prefix: Seq<char>, idx: nat) -> Seq<char> {
    prefix + "-"@ + crate::util::text::decimal(idx)
}

/// Collects how a pool of workers is to be started.
#[derive(Debug)]
pub struct WorkerPoolBuilder {
    pub worker_count: Option<usize>,
    pub prefix: Option<String>,
}

impl WorkerPoolBuilder {
    /// Nothing is set.
    pub fn new() -> (r: Self)
        ensures
            r.worker_count == None::<usize>,
            r.prefix == None::<String>,
    {
        WorkerPoolBuilder { worker_count: None, prefix: None }
    }

    /// One worker is set.
    pub fn single() -> (r: Self)
        ensures
            r.worker_count == Some(1usize),
            r.prefix == None::<String>,
    {
        WorkerPoolBuilder { worker_count: Some(1), prefix: None }
    }

    /// Sets the number of workers.
    pub fn worker_count(self, count: usize) -> (r: Self)
        requires
            count > 0,
        ensures
            r.worker_count == Some(count),
            r.prefix == self.prefix,
    {
        WorkerPoolBuilder { worker_count: Some(count), prefix: self.prefix }
    }

    /// Sets what the names of the workers begin with.
    pub fn prefix(self, prefix: String) -> (r: Self)
        ensures
            r.worker_count == self.worker_count,
            r.prefix == Some(prefix),
    {
        WorkerPoolBuilder { worker_count: self.worker_count, prefix: Some(prefix) }
    }

    /// The names of the workers to start. Unless their number was set, there are as many as can run
    /// at once, as far as that is known.
    pub fn start(self, available: Option<usize>) -> (r: Vec<String>)
        ensures
            r@.len() == (match (self.worker_count, available) {
                (Some(count), _) => count,
                (None, Some(count)) => count,
                (None, None) => DEFAULT_WORKER_COUNT,
            }),
            forall|i: int|
                0 <= i < r@.len() ==> (#[trigger] r@[i])@ == worker_name(
                    match self.prefix {
                        Some(prefix) => prefix@,
                        None => "worker"@,
                    },
                    i as nat,
                ),
    {
        let count: usize = match (self.worker_count, available) {
            (Some(count), _) => count,
            (None, Some(count)) => count,
            (None, None) => DEFAULT_WORKER_COUNT,
        };
        let prefix = match self.prefix {
            Some(prefix) => prefix,
            None => "worker".to_owned(),
        };
        let mut names: Vec<String> = Vec::new();
        let mut idx: usize = 0;
        while idx < count
            invariant
                idx <= count,
                names@.len() == idx,
                forall|i: int| 0 <= i < idx ==> (#[trigger] names@[i])@ == worker_name(prefix@, i as nat),
            decreases count - idx,
        {
            let mut name = prefix.clone();
            name.append("-");
            let number = usize_text(idx);
            name.append(number.as_str());
            let ghost before = names@;
            names.push(name);
            assert forall|i: int| 0 <= i < idx + 1 implies (#[trigger] names@[i])@ == worker_name(
                prefix@,
                i as nat,
            ) by {
                if i < idx {
                    assert(names@[i] == before[i]);
                }
            }
            idx += 1;
        }
        names
    }
}

/// The steps of a lap lead to every place exactly once.
pub proof fn lemma_lap_is_complete(start: int, len: int, i: int, k: int)
    requires
        0 <= start < len,
        0 <= i < len,
        0 <= k < len,
    ensures
        0 <= ring_distance(start, len, i) < len,
        ring_place(start, len, ring_distance(start, len, i)) == i,
        0 <= ring_place(start, len, k) < len,
        ring_distance(start, len, ring_place(start, len, k)) == k,
        ring_place(start, len, len) == start,
{
}

/// The first source with work that is met is the one whose work is found.
pub proof fn lemma_first_hit<S: WorkSource>(items: Seq<ItemView<S::Model>>, start: int, from: int)
    requires
        0 <= from,
    ensures
        match first_hit::<S>(items, start, from) {
            Some(k) => {
                &&& from <= k < items.len()
                &&& S::answer(items[ring_place(start, items.len() as int, k)].model).is_ok()
                &&& forall|j: int|
                    from <= j < k ==> !S::answer(
                        items[#[trigger] ring_place(start, items.len() as int, j)].model,
                    ).is_ok()
            },
            None => forall|j: int|
                from <= j < items.len() ==> !S::answer(
                    items[#[trigger] ring_place(start, items.len() as int, j)].model,
                ).is_ok(),
        },
    decreases items.len() - from,
{
    if from < items.len() {
        lemma_first_hit::<S>(items, start, from + 1);
    }
}

/// Work is found in a bucket if and only if one of its sources has some.
pub proof fn lemma_found_iff_any<S: WorkSource>(bucket: BucketModel<S::Model>, thread: u64)
    requires
        (bucket.next)(thread) < bucket.items.len() || (bucket.next)(thread) == 0,
    ensures
        found_in::<S>(bucket, thread).is_some() <==> exists|i: int|
            #![trigger bucket.items[i]]
            0 <= i < bucket.items.len() && S::answer(bucket.items[i].model).is_ok(),
{
    let start = (bucket.next)(thread) as int;
    let len = bucket.items.len() as int;
    lemma_first_hit::<S>(bucket.items, start, 0);
    match first_hit::<S>(bucket.items, start, 0) {
        Some(k) => {
            assert(S::answer(bucket.items[ring_place(start, len, k)].model).is_ok());
        },
        None => {
            assert forall|i: int| 0 <= i < len implies !S::answer(#[trigger] bucket.items[i].model).is_ok() by {
                lemma_lap_is_complete(start, len, i, 0);
                assert(ring_place(start, len, ring_distance(start, len, i)) == i);
            }
        },
    }
}

/// Work is found where the priority is highest: no bucket that comes before has any.
pub proof fn lemma_highest_first<S: WorkSource>(buckets: Seq<BucketModel<S::Model>>, thread: u64, from: int)
    requires
        0 <= from <= buckets.len(),
    ensures
        match scan_result::<S>(buckets, thread, from) {
            Some(work) => {
                let i = scan_count::<S>(buckets, thread, from) - 1;
                &&& from <= i < buckets.len()
                &&& found_in::<S>(buckets[i], thread) == Some(work)
                &&& forall|j: int| from <= j < i ==> found_in::<S>(#[trigger] buckets[j], thread).is_none()
            },
            None => forall|j: int|
                from <= j < buckets.len() ==> found_in::<S>(#[trigger] buckets[j], thread).is_none(),
        },
    decreases buckets.len() - from,
{
    if from < buckets.len() {
        lemma_highest_first::<S>(buckets, thread, from + 1);
    }
}

/// If no work is found, then no source has any.
pub proof fn lemma_no_work_left<S: WorkSource>(buckets: Seq<BucketModel<S::Model>>, thread: u64, j: int, i: int)
    requires
        scan_result::<S>(buckets, thread, 0).is_none(),
        0 <= j < buckets.len(),
        0 <= i < buckets[j].items.len(),
        (buckets[j].next)(thread) < buckets[j].items.len(),
    ensures
        !S::answer(buckets[j].items[i].model).is_ok(),
{
    lemma_highest_first::<S>(buckets, thread, 0);
    lemma_found_iff_any::<S>(buckets[j], thread);
}

/// Sources of the same priority take turns: the source whose work was found is the last one that the
/// thread asks when it looks again.
pub proof fn lemma_turns<S: WorkSource>(bucket: BucketModel<S::Model>, thread: u64)
    requires
        (bucket.next)(thread) < bucket.items.len() <= usize::MAX,
        found_in::<S>(bucket, thread).is_some(),
    ensures
        ({
            let start = (bucket.next)(thread) as int;
            let len = bucket.items.len() as int;
            let place = ring_place(start, len, asked_count::<S>(bucket, thread) - 1);
            &&& found_in::<S>(bucket, thread) == Some(S::answer(bucket.items[place].model)->Ok_0)
            &&& ring_distance((scanned::<S>(bucket, thread).next)(thread) as int, len, place) == len - 1
        }),
{
    lemma_first_hit::<S>(bucket.items, (bucket.next)(thread) as int, 0);
}

/// A source that has reported that it is disconnected is marked, and is gone once the expired
/// sources are removed.
pub proof fn lemma_disconnected_is_removed<S: WorkSource>(bucket: BucketModel<S::Model>, i: int)
    requires
        0 <= i < bucket.items.len(),
        S::answer(bucket.items[i].model) == Err::<u64, FindWorkError>(FindWorkError::Disconnected),
    ensures
        asked_item::<S>(bucket.items[i]).expired,
        forall|k: int|
            0 <= k < cleared(bucket).items.len() ==> !(#[trigger] cleared(bucket).items[k]).expired,
{
    let keep = |item: ItemView<S::Model>| !item.expired;
    assert(cleared(bucket).items == bucket.items.filter(keep));
    assert forall|k: int| 0 <= k < cleared(bucket).items.len() implies !(
    #[trigger] cleared(bucket).items[k]).expired by {
        bucket.items.lemma_filter_pred(keep, k);
    }
}

/// One step round a ring leads to the next place, and from the last place to the first one; several
/// steps are that many single ones.
pub proof fn lemma_ring_steps(start: int, len: int, k: int)
    requires
        0 <= start < len,
        0 <= k < len,
    ensures
        ring_place(start, len, 0) == start,
        ring_place(start, len, k) == (start + k) % len,
        ring_place(start, len, k + 1) == (if ring_place(start, len, k) + 1 == len {
            0
        } else {
            ring_place(start, len, k) + 1
        }),
{
    if start + k >= len {
        assert((start + k) % len == start + k - len) by {
            vstd::arithmetic::div_mod::lemma_mod_add_multiples_vanish(start + k - len, len);
            vstd::arithmetic::div_mod::lemma_small_mod((start + k - len) as nat, len as nat);
        }
    } else {
        vstd::arithmetic::div_mod::lemma_small_mod((start + k) as nat, len as nat);
    }
}

/// Whether `at` lists, in ascending order, the places of all items that have not expired, and no
/// others.
pub open spec fn lists_unexpired<M>(items: Seq<ItemView<M>>, at: Seq<int>) -> bool {
    &&& forall|j: int| 0 <= j < at.len() ==> 0 <= #[trigger] at[j] < items.len() && !items[at[j]].expired
    &&& forall|j: int, k: int| 0 <= j < k < at.len() ==> #[trigger] at[j] < #[trigger] at[k]
    &&& forall|i: int| 0 <= i < items.len() && !(#[trigger] items[i]).expired ==> at.contains(i)
}

/// Removing the expired sources of a bucket keeps every other one, as often as it was there and in
/// the same order, and nothing else; there are as many left as have not expired. Every thread begins
/// with the first one again.
pub proof fn lemma_clearing_keeps_unexpired<M>(bucket: BucketModel<M>, item: ItemView<M>, thread: u64) -> (at: Seq<
    int,
>)
    ensures
        lists_unexpired(bucket.items, at),
        cleared(bucket).items == Seq::new(at.len(), |j: int| bucket.items[at[j]]),
        cleared(bucket).items.to_multiset().count(item) == (if item.expired {
            0
        } else {
            bucket.items.to_multiset().count(item)
        }),
        (cleared(bucket).next)(thread) == 0,
    decreases bucket.items.len(),
{
    broadcast use vstd::seq_lib::group_to_multiset_ensures;

    reveal(Seq::filter);
    let items = bucket.items;
    let left = cleared(bucket).items;
    if items.len() == 0 {
        assert(left =~= Seq::empty());
        Seq::empty()
    } else {
        let rest = BucketModel { items: items.drop_last(), ..bucket };
        let before = lemma_clearing_keeps_unexpired(rest, item, thread);
        let last = items.len() - 1;
        assert(items =~= rest.items.push(items.last()));
        let at = if items.last().expired {
            before
        } else {
            before.push(last)
        };
        assert forall|i: int| 0 <= i < items.len() && !(#[trigger] items[i]).expired implies at.contains(i) by {
            if i < last {
                assert(rest.items[i] == items[i]);
                assert(before.contains(i));
                let j = choose|j: int| 0 <= j < before.len() && before[j] == i;
                assert(at[j] == i);
            } else {
                assert(at[before.len() as int] == i);
            }
        }
        assert(left =~= Seq::new(at.len(), |j: int| items[at[j]])) by {
            let kept = cleared(rest).items;
            assert(kept == Seq::new(before.len(), |j: int| rest.items[before[j]]));
            if items.last().expired {
                assert(left == kept);
            } else {
                assert(left == kept.push(items.last()));
            }
        }
        at
    }
}

/// Whether every thread goes on at a source of each bucket, or at the first place if there is none.
pub open spec fn goes_on_in_range<M>(buckets: Seq<BucketModel<M>>, thread: u64) -> bool {
    forall|i: int|
        0 <= i < buckets.len() ==> ((#[trigger] buckets[i]).next)(thread) < buckets[i].items.len() || (
        buckets[i].next)(thread) == 0
}

/// Every thread goes on at a source of each bucket of a pool, if there is one.
pub proof fn lemma_goes_on_in_range<P: HasStaticPriority, S: WorkSource>(pool: &State<P, S>, thread: u64)
    requires
        pool.wf(),
    ensures
        goes_on_in_range(pool.model().buckets, thread),
{
    assert forall|i: int| 0 <= i < pool.model().buckets.len() implies ((
    #[trigger] pool.model().buckets[i]).next)(thread) < pool.model().buckets[i].items.len() || (
    pool.model().buckets[i].next)(thread) == 0 by {
        pool.work_sources@[i].1.lemma_next_in_range(thread);
    }
}

/// A search finds work if and only if a source that takes part in it has some, and what it finds is
/// the work of a source such that no source of a higher priority has any. All sources take part,
/// but for those that are known to have expired when the last search met such a source.
pub proof fn lemma_search_finds_the_highest<S: WorkSource>(pool: PoolModel<S::Model>, thread: u64)
    requires
        goes_on_in_range(pool.buckets, thread),
    ensures
        match scan_result::<S>(before_scan(pool), thread, 0) {
            Some(work) => exists|b: int, i: int|
                #![trigger pool.buckets[b].items[i]]
                {
                    &&& 0 <= b < pool.buckets.len()
                    &&& 0 <= i < pool.buckets[b].items.len()
                    &&& !(pool.has_expired && pool.buckets[b].items[i].expired)
                    &&& S::answer(pool.buckets[b].items[i].model) == Ok::<u64, FindWorkError>(work)
                    &&& forall|c: int, k: int|
                        #![trigger pool.buckets[c].items[k]]
                        0 <= c < b && 0 <= k < pool.buckets[c].items.len() && !(pool.has_expired
                            && pool.buckets[c].items[k].expired) ==> S::answer(pool.buckets[c].items[k].model).is_err()
                },
            None => forall|b: int, i: int|
                #![trigger pool.buckets[b].items[i]]
                0 <= b < pool.buckets.len() && 0 <= i < pool.buckets[b].items.len() && !(pool.has_expired
                    && pool.buckets[b].items[i].expired) ==> S::answer(pool.buckets[b].items[i].model).is_err(),
        },
{
    let buckets = before_scan(pool);
    assert forall|c: int| 0 <= c < buckets.len() && found_in::<S>(#[trigger] buckets[c], thread).is_none() implies forall|
        k: int,
    |
        #![trigger pool.buckets[c].items[k]]
        0 <= k < pool.buckets[c].items.len() && !(pool.has_expired && pool.buckets[c].items[k].expired) ==> S::answer(
            pool.buckets[c].items[k].model,
        ).is_err() by {
        assert forall|k: int|
            #![trigger pool.buckets[c].items[k]]
            0 <= k < pool.buckets[c].items.len() && !(pool.has_expired && pool.buckets[c].items[k].expired) implies S::answer(
            pool.buckets[c].items[k].model,
        ).is_err() by {
            let bucket = pool.buckets[c];
            assert((buckets[c].next)(thread) < buckets[c].items.len() || (buckets[c].next)(thread) == 0);
            lemma_found_iff_any::<S>(buckets[c], thread);
            if pool.has_expired {
                let at = lemma_clearing_keeps_unexpired(bucket, bucket.items[k], thread);
                assert(at.contains(k));
                let j = choose|j: int| 0 <= j < at.len() && at[j] == k;
                assert(buckets[c].items[j] == bucket.items[k]);
            } else {
                assert(buckets[c].items[k] == bucket.items[k]);
            }
        }
    }
    lemma_highest_first::<S>(buckets, thread, 0);
    match scan_result::<S>(buckets, thread, 0) {
        Some(work) => {
            let b = scan_count::<S>(buckets, thread, 0) - 1;
            let start = (buckets[b].next)(thread) as int;
            let len = buckets[b].items.len() as int;
            lemma_first_hit::<S>(buckets[b].items, start, 0);
            let k = first_hit::<S>(buckets[b].items, start, 0).unwrap();
            let place = ring_place(start, len, k);
            assert(S::answer(buckets[b].items[place].model).is_ok());
            assert(pool.buckets[b] == pool.buckets[b]);
            assert(start < pool.buckets[b].items.len() || start == 0);
            if pool.has_expired {
                let at = lemma_clearing_keeps_unexpired(pool.buckets[b], buckets[b].items[place], thread);
                assert(buckets[b].items[place] == pool.buckets[b].items[at[place]]);
                assert(!pool.buckets[b].items[at[place]].expired);
            } else {
                assert(buckets[b].items[place] == pool.buckets[b].items[place]);
            }
            assert forall|c: int, k: int|
                #![trigger pool.buckets[c].items[k]]
                0 <= c < b && 0 <= k < pool.buckets[c].items.len() && !(pool.has_expired
                    && pool.buckets[c].items[k].expired) implies S::answer(pool.buckets[c].items[k].model).is_err() by {
                assert(found_in::<S>(buckets[c], thread).is_none());
            }
        },
        None => {
            assert forall|c: int, k: int|
                #![trigger pool.buckets[c].items[k]]
                0 <= c < pool.buckets.len() && 0 <= k < pool.buckets[c].items.len() && !(pool.has_expired
                    && pool.buckets[c].items[k].expired) implies S::answer(pool.buckets[c].items[k].model).is_err() by {
                assert(found_in::<S>(buckets[c], thread).is_none());
            }
        },
    }
}

/// What a search leaves of a source: it was asked once if it was met, and is expired from then on if
/// it answered that it is disconnected; one that was not met is as it was. Every source that was met
/// had no work, but for the one whose work was found. No source is lost, and the search in a bucket
/// that has work in one of its sources ends there.
pub proof fn lemma_search_asks_in_turn<S: WorkSource>(bucket: BucketModel<S::Model>, thread: u64, i: int)
    requires
        (bucket.next)(thread) < bucket.items.len() <= usize::MAX,
        0 <= i < bucket.items.len(),
    ensures
        ({
            let before = bucket.items[i];
            let after = scanned::<S>(bucket, thread).items[i];
            let steps = if i >= (bucket.next)(thread) {
                i - (bucket.next)(thread)
            } else {
                i - (bucket.next)(thread) + bucket.items.len()
            };
            let is_met = forall|j: int|
                #![trigger bucket.items[j]]
                0 <= j < bucket.items.len() && S::answer(bucket.items[j].model).is_ok() ==> steps <= (if j >= (
                bucket.next)(thread) {
                    j - (bucket.next)(thread)
                } else {
                    j - (bucket.next)(thread) + bucket.items.len()
                });
            &&& scanned::<S>(bucket, thread).items.len() == bucket.items.len()
            &&& is_met ==> after.model == S::asked(before.model)
            &&& is_met && S::answer(before.model).is_ok() ==> found_in::<S>(bucket, thread) == Some(
                S::answer(before.model)->Ok_0,
            )
            &&& !is_met ==> after == before
            &&& is_met && S::answer(before.model) == Err::<u64, FindWorkError>(FindWorkError::Disconnected) ==> {
                &&& after.expired
                &&& meets_expired::<S>(bucket, thread)
            }
            &&& S::answer(before.model) != Err::<u64, FindWorkError>(FindWorkError::Disconnected) ==> after.expired
                == before.expired
        }),
{
    let start = (bucket.next)(thread) as int;
    let len = bucket.items.len() as int;
    let items = bucket.items;
    lemma_first_hit::<S>(items, start, 0);
    let steps = ring_distance(start, len, i);
    assert(ring_place(start, len, steps) == i);
    match first_hit::<S>(items, start, 0) {
        Some(k) => {
            let place = ring_place(start, len, k);
            assert(S::answer(items[place].model).is_ok());
            assert(ring_distance(start, len, place) == k);
            assert forall|j: int|
                #![trigger items[j]]
                0 <= j < len && S::answer(items[j].model).is_ok() implies k <= ring_distance(start, len, j) by {
                assert(ring_place(start, len, ring_distance(start, len, j)) == j);
            }
            if steps == k {
                assert(i == place);
            }
        },
        None => {
            assert forall|j: int| #![trigger items[j]] 0 <= j < len implies !S::answer(items[j].model).is_ok() by {
                assert(ring_place(start, len, ring_distance(start, len, j)) == j);
            }
        },
    }
    assert(items[i] == items[i]);
}

/// A new source is the last one of its priority, in front of it are those that the priority had, in
/// their order; the sources of every other priority stay. Priorities stay in descending order, and
/// nobody sleeps any more.
pub proof fn lemma_new_source_comes_last<M>(pool: PoolModel<M>, rank: int, source: M, other: int)
    requires
        pool.ranks.len() == pool.buckets.len(),
        forall|i: int, j: int| 0 <= i < j < pool.ranks.len() ==> #[trigger] pool.ranks[i] > #[trigger] pool.ranks[j],
        0 <= other < pool.ranks.len(),
    ensures
        ({
            let after = with_source(pool, rank, source);
            let item = ItemView { model: source, expired: false };
            &&& after.ranks.len() == after.buckets.len()
            &&& forall|i: int, j: int|
                0 <= i < j < after.ranks.len() ==> #[trigger] after.ranks[i] > #[trigger] after.ranks[j]
            &&& after.sleepers.len() == 0
            &&& after.has_expired == pool.has_expired
            &&& exists|b: int|
                0 <= b < after.ranks.len() && #[trigger] after.ranks[b] == rank && after.buckets[b].items.last() == item
                    && after.buckets[b].items.len() == (if pool.ranks.contains(rank) {
                    pool.buckets[pool.ranks.index_of(rank)].items.len() + 1
                } else {
                    1
                })
            &&& exists|b: int|
                0 <= b < after.ranks.len() && #[trigger] after.ranks[b] == pool.ranks[other] && after.buckets[b].next
                    == pool.buckets[other].next && after.buckets[b].items == (if pool.ranks[other] == rank {
                    pool.buckets[other].items.push(item)
                } else {
                    pool.buckets[other].items
                })
        }),
{
    lemma_rank_place(pool.ranks, rank, 0);
    let place = rank_place(pool.ranks, rank, 0);
    let after = with_source(pool, rank, source);
    let item = ItemView { model: source, expired: false };
    if pool.ranks.contains(rank) {
        let at = pool.ranks.index_of(rank);
        assert(pool.ranks[at] == rank);
        if at != place {
            assert(at > place);
            assert(pool.ranks[place] > pool.ranks[at]);
        }
    }
    assert(after.ranks[place] == rank);
    assert(after.buckets[place].items.last() == item);
    if place < pool.ranks.len() && pool.ranks[place] == rank {
        assert(pool.ranks.contains(rank));
        assert(after.ranks[other] == pool.ranks[other]);
        if pool.ranks[other] == rank && other != place {
            assert(other < place || other > place);
        }
    } else {
        assert(!pool.ranks.contains(rank));
        let b = if other < place {
            other
        } else {
            other + 1
        };
        assert(after.ranks[b] == pool.ranks[other]);
        assert(pool.ranks[other] != rank);
    }
}

proof fn lemma_rank_place(ranks: Seq<int>, rank: int, from: int)
    requires
        0 <= from <= ranks.len(),
    ensures
        from <= rank_place(ranks, rank, from) <= ranks.len(),
        forall|i: int| from <= i < rank_place(ranks, rank, from) ==> #[trigger] ranks[i] > rank,
        rank_place(ranks, rank, from) < ranks.len() ==> ranks[rank_place(ranks, rank, from)] <= rank,
    decreases ranks.len() - from,
{
    if from < ranks.len() {
        lemma_rank_place(ranks, rank, from + 1);
    }
}

/// A source of a priority that the pool had none of is alone there.
pub proof fn lemma_first_source_is_alone<M>(pool: PoolModel<M>, rank: int, source: M)
    requires
        pool.ranks.len() == pool.buckets.len(),
        !pool.ranks.contains(rank),
    ensures
        ({
            let after = with_source(pool, rank, source);
            &&& after.ranks.len() == pool.ranks.len() + 1
            &&& after.ranks.contains(rank)
            &&& after.buckets[after.ranks.index_of(rank)].items == seq![ItemView { model: source, expired: false }]
            &&& after.sleepers.len() == 0
        }),
{
    lemma_rank_place(pool.ranks, rank, 0);
    let place = rank_place(pool.ranks, rank, 0);
    let after = with_source(pool, rank, source);
    assert(place < pool.ranks.len() ==> pool.ranks.contains(pool.ranks[place]));
    assert(after.ranks[place] == rank);
    assert(after.ranks.contains(rank));
    let at = after.ranks.index_of(rank);
    assert(after.ranks[at] == rank);
    if at != place {
        let old_at = if at < place {
            at
        } else {
            at - 1
        };
        assert(pool.ranks[old_at] == rank);
        assert(pool.ranks.contains(rank));
    }
}

/// A thread that is about to sleep is among the sleepers from then on, once, behind those who were
/// there. The first sleeper has every source wake it; later ones leave the sources as they are.
pub proof fn lemma_sleeper_is_noted<S: WorkSource>(
    pool: PoolModel<S::Model>,
    thread: u64,
    waker: u64,
    b: int,
    i: int,
)
    requires
        0 <= b < pool.buckets.len(),
        0 <= i < pool.buckets[b].items.len(),
    ensures
        ({
            let after = with_sleeper::<S>(pool, thread, waker);
            let source = after.buckets[b].items[i];
            &&& after.sleepers.contains(thread)
            &&& pool.sleepers.contains(thread) ==> after == pool
            &&& !pool.sleepers.contains(thread) ==> after.sleepers == pool.sleepers + seq![thread]
            &&& after.ranks == pool.ranks && after.has_expired == pool.has_expired
            &&& after.buckets.len() == pool.buckets.len()
            &&& after.buckets[b].items.len() == pool.buckets[b].items.len()
            &&& after.buckets[b].next == pool.buckets[b].next
            &&& source.expired == pool.buckets[b].items[i].expired
            &&& pool.sleepers.len() == 0 ==> source.model == S::with_waker(pool.buckets[b].items[i].model, waker)
            &&& pool.sleepers.len() > 0 ==> source == pool.buckets[b].items[i]
        }),
{
    if !pool.sleepers.contains(thread) {
        let all = pool.sleepers.push(thread);
        assert(all[pool.sleepers.len() as int] == thread);
        assert(all =~= pool.sleepers + seq![thread]);
    }
}

/// A search leaves the priorities, the sleepers and the number of buckets as they are. Buckets of a
/// lower priority than the one that work was found in are not asked. A search has to look for
/// expired sources next time if and only if it met one that is disconnected.
pub proof fn lemma_search_stops_at_work<S: WorkSource>(pool: PoolModel<S::Model>, thread: u64, b: int)
    requires
        0 <= b < pool.buckets.len(),
    ensures
        ({
            let asked = before_scan(pool);
            let after = searched::<S>(pool, thread);
            &&& after.ranks == pool.ranks
            &&& after.sleepers == pool.sleepers
            &&& after.buckets.len() == pool.buckets.len()
            &&& (forall|c: int| 0 <= c < b ==> found_in::<S>(#[trigger] asked[c], thread).is_none())
                ==> after.buckets[b] == scanned::<S>(asked[b], thread)
            &&& (exists|c: int| 0 <= c < b && found_in::<S>(#[trigger] asked[c], thread).is_some())
                ==> after.buckets[b] == asked[b]
            &&& (forall|c: int| 0 <= c < b ==> found_in::<S>(#[trigger] asked[c], thread).is_none())
                && meets_expired::<S>(asked[b], thread) ==> after.has_expired
            &&& (forall|c: int| 0 <= c < asked.len() ==> !meets_expired::<S>(#[trigger] asked[c], thread))
                ==> !after.has_expired
        }),
{
    let asked = before_scan(pool);
    lemma_scan_count::<S>(asked, thread, 0);
    let count = scan_count::<S>(asked, thread, 0);
    if forall|c: int| 0 <= c < b ==> found_in::<S>(#[trigger] asked[c], thread).is_none() {
        if count <= b {
            assert(found_in::<S>(asked[count - 1], thread).is_some());
        }
        assert(asked[b] == asked[b]);
    }
}

proof fn lemma_scan_count<S: WorkSource>(buckets: Seq<BucketModel<S::Model>>, thread: u64, from: int)
    requires
        0 <= from <= buckets.len(),
    ensures
        from <= scan_count::<S>(buckets, thread, from) <= buckets.len(),
        scan_count::<S>(buckets, thread, from) < buckets.len() ==> scan_count::<S>(buckets, thread, from) > from
            && found_in::<S>(buckets[scan_count::<S>(buckets, thread, from) - 1], thread).is_some(),
        forall|c: int|
            from <= c < scan_count::<S>(buckets, thread, from) - 1 ==> found_in::<S>(
                #[trigger] buckets[c],
                thread,
            ).is_none(),
    decreases buckets.len() - from,
{
    if from < buckets.len() && found_in::<S>(buckets[from], thread).is_none() {
        lemma_scan_count::<S>(buckets, thread, from + 1);
    }
}

/// A thread that meets an expired source has met one that answered that it is disconnected.
pub proof fn lemma_meets_only_disconnected<S: WorkSource>(bucket: BucketModel<S::Model>, thread: u64)
    requires
        meets_expired::<S>(bucket, thread),
    ensures
        exists|i: int|
            #![trigger bucket.items[i]]
            0 <= i < bucket.items.len() && S::answer(bucket.items[i].model) == Err::<u64, FindWorkError>(
                FindWorkError::Disconnected,
            ),
{
}

/// Different workers of a pool have different names, which begin with the same text.
pub proof fn lemma_worker_names_differ(prefix: Seq<char>, a: nat, b: nat)
    ensures
        prefix.is_prefix_of(worker_name(prefix, a)),
        worker_name(prefix, a) == worker_name(prefix, b) ==> a == b,
{
    let front = prefix + "-"@;
    let x = worker_name(prefix, a);
    let y = worker_name(prefix, b);
    if x == y {
        assert(x.skip(front.len() as int) =~= crate::util::text::decimal(a));
        assert(y.skip(front.len() as int) =~= crate::util::text::decimal(b));
        crate::util::text::lemma_numerals_differ(a, b);
    }
}

} // verus!
