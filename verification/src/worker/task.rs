//! Queues of work, and the results of work.
use crossbeam::queue::SegQueue;
use vstd::prelude::*;

use crate::worker::{FindWorkError, FindWorkResult, WorkSource};

verus! {

/// `crossbeam::queue::SegQueue`: an unbounded queue, first in, first out.
#[verifier::external_type_specification]
#[verifier::external_body]
#[verifier::reject_recursive_types(T)]
pub struct ExSegQueue<T>(SegQueue<T>);

/// The contents of a queue, the item that leaves next first.
pub uninterp spec fn queue_items(queue: SegQueue<u64>) -> Seq<u64>;

/// `SegQueue::new`: an empty queue.
#[verifier::external_body]
fn queue_new() -> (r: SegQueue<u64>)
    ensures
        queue_items(r) == Seq::<u64>::empty(),
{
    SegQueue::new()
}

/// `SegQueue::push`: adds an item at the back.
#[verifier::external_body]
fn queue_push(queue: &mut SegQueue<u64>, item: u64)
    ensures
        queue_items(*final(queue)) == queue_items(*old(queue)).push(item),
{
    queue.push(item)
}

/// `SegQueue::pop`: takes the item at the front, if there is one.
#[verifier::external_body]
fn queue_pop(queue: &mut SegQueue<u64>) -> (r: Option<u64>)
    ensures
        r.is_some() == (queue_items(*old(queue)).len() > 0),
        r.is_some() ==> r.unwrap() == queue_items(*old(queue))[0],
        r.is_some() ==> queue_items(*final(queue)) == queue_items(*old(queue)).drop_first(),
        r.is_none() ==> queue_items(*final(queue)) == queue_items(*old(queue)),
{
    queue.pop()
}

/// `SegQueue::len`: the number of items.
#[verifier::external_body]
fn queue_len(queue: &SegQueue<u64>) -> (r: usize)
    ensures
        r == queue_items(*queue).len(),
{
    queue.len()
}

/// `SegQueue::is_empty`: whether there is no item.
#[verifier::external_body]
fn queue_is_empty(queue: &SegQueue<u64>) -> (r: bool)
    ensures
        r == (queue_items(*queue).len() == 0),
{
    queue.is_empty()
}

/// Why work has no result.
#[derive(Debug, Clone, Copy, PartialEq, Eq, Structural)]
pub enum WorkTaskError {
    /// It was dropped before it was executed.
    Cancelled,
}

impl WorkTaskError {
    /// The text of the error.
    pub fn to_text(&self) -> (r: String)
        ensures
            r@ == "work task was cancelled"@,
    {
        "work task was cancelled".to_owned()
    }
}

/// What work results in.
pub type WorkTaskResult<T> = Result<T, WorkTaskError>;

/// What looking into the channel of a task gives.
#[derive(Debug)]
pub enum Received<T> {
    /// The value.
    Value(T),
    /// No value yet.
    Empty,
    /// No value, and there will be none.
    Closed,
}

/// A handle for the result of work.
#[derive(Debug, Clone, Copy, PartialEq, Eq, Structural)]
pub struct WorkTask {
    /// Whether somebody has begun to wait.
    pub polling: bool,
}

impl WorkTask {
    /// A handle that nobody waits for yet.
    pub fn new() -> (r: Self)
        ensures
            !r.polling,
    {
        WorkTask { polling: false }
    }

    /// The result, if it is there, given what looking into the channel gave; the handle itself if
    /// it is not. Once somebody has begun to wait, this must not be used any more.
    pub fn try_poll<T>(self, received: Received<T>) -> (r: Result<WorkTaskResult<T>, WorkTask>)
        requires
            !self.polling,
        ensures
            r == (match received {
                Received::Value(value) => Ok(Ok(value)),
                Received::Empty => Err(self),
                Received::Closed => Ok::<WorkTaskResult<T>, WorkTask>(Err(WorkTaskError::Cancelled)),
            }),
    {
        match received {
            Received::Value(value) => Ok(Ok(value)),
            Received::Empty => Err(self),
            Received::Closed => Ok(Err(WorkTaskError::Cancelled)),
        }
    }

    /// Waits for the result, given what polling the channel gave.
    pub fn poll<T>(&mut self, received: Received<T>) -> (r: Option<WorkTaskResult<T>>)
        ensures
            final(self).polling,
            r == (match received {
                Received::Value(value) => Some(Ok(value)),
                Received::Empty => None,
                Received::Closed => Some(Err::<T, WorkTaskError>(WorkTaskError::Cancelled)),
            }),
    {
        self.polling = true;
        match received {
            Received::Value(value) => Some(Ok(value)),
            Received::Empty => None,
            Received::Closed => Some(Err(WorkTaskError::Cancelled)),
        }
    }

    /// A description of the handle.
    pub fn debug_text(&self) -> (r: String)
        ensures
            r@ == (if self.polling {
                "WorkTask { state: \"polling\" }"@
            } else {
                "WorkTask { state: \"incomplete\" }"@
            }),
    {
        if self.polling {
            "WorkTask { state: \"polling\" }".to_owned()
        } else {
            "WorkTask { state: \"incomplete\" }".to_owned()
        }
    }
}

/// The mathematical value of a [`WorkQueue`].
pub struct QueueView {
    /// The work, that which is executed next first.
    pub work: Seq<u64>,
    /// Whom to wake when work is added.
    pub waker: Option<u64>,
}

/// A source of work that is executed in the order in which it is added.
pub struct WorkQueue {
    queue: SegQueue<u64>,
    waker: Option<u64>,
}

impl View for WorkQueue {
    type V = QueueView;

    closed spec fn view(&self) -> QueueView {
        QueueView { work: queue_items(self.queue), waker: self.waker }
    }
}

impl WorkQueue {
    /// There is no work.
    pub fn new() -> (r: Self)
        ensures
            r@ == (QueueView { work: Seq::empty(), waker: None }),
    {
        WorkQueue { queue: queue_new(), waker: None }
    }

    /// Whether there is no work.
    pub fn is_empty(&self) -> (r: bool)
        ensures
            r == (self@.work.len() == 0),
    {
        queue_is_empty(&self.queue)
    }

    /// The number of pieces of work.
    pub fn len(&self) -> (r: usize)
        ensures
            r == self@.work.len(),
    {
        queue_len(&self.queue)
    }

    /// Adds a piece of work; the handle for its result, and whom to wake. A waker is used once.
    pub fn execute(&mut self, work: u64) -> (r: (WorkTask, Option<u64>))
        ensures
            final(self)@ == (QueueView { work: old(self)@.work.push(work), waker: None }),
            !r.0.polling,
            r.1 == old(self)@.waker,
    {
        queue_push(&mut self.queue, work);
        let waker = self.waker;
        self.waker = None;
        (WorkTask::new(), waker)
    }
}

impl WorkSource for WorkQueue {
    type Model = QueueView;

    open spec fn model(&self) -> QueueView {
        self@
    }

    open spec fn answer(model: QueueView) -> FindWorkResult {
        if model.work.len() > 0 {
            Ok(model.work[0])
        } else {
            Err(FindWorkError::NoWork)
        }
    }

    open spec fn asked(model: QueueView) -> QueueView {
        QueueView {
            work: if model.work.len() > 0 {
                model.work.drop_first()
            } else {
                model.work
            },
            waker: model.waker,
        }
    }

    open spec fn with_waker(model: QueueView, waker: u64) -> QueueView {
        QueueView { work: model.work, waker: Some(waker) }
    }

    fn find_work(&mut self) -> (r: FindWorkResult) {
        match queue_pop(&mut self.queue) {
            Some(work) => Ok(work),
            None => Err(FindWorkError::NoWork),
        }
    }

    fn set_worker_waker(&mut self, waker: u64) {
        self.waker = Some(waker);
    }
}

/// Work leaves a queue in the order in which it was added.
pub proof fn lemma_queue_order(model: QueueView, work: u64)
    ensures
        model.work.len() == 0 ==> WorkQueue::answer(QueueView { work: model.work.push(work), ..model }) == Ok::<
            u64,
            FindWorkError,
        >(work),
        model.work.len() > 0 ==> WorkQueue::answer(QueueView { work: model.work.push(work), ..model })
            == WorkQueue::answer(model),
        model.work.len() > 0 ==> WorkQueue::asked(QueueView { work: model.work.push(work), ..model }) == (
        QueueView { work: WorkQueue::asked(model).work.push(work), ..model }),
{
    if model.work.len() > 0 {
        assert(model.work.push(work).drop_first() =~= model.work.drop_first().push(work));
    }
}

/// A queue hands out all of its work, one piece each time, and says that there is none when there is
/// none; it is never disconnected. Being asked, and being given a waker, changes nothing else.
pub proof fn lemma_queue_hands_out(model: QueueView, waker: u64)
    ensures
        WorkQueue::answer(model) is Ok <==> model.work.len() > 0,
        WorkQueue::answer(model) matches Ok(work) ==> model.work == seq![work] + WorkQueue::asked(model).work,
        WorkQueue::answer(model) matches Err(error) ==> error is NoWork && WorkQueue::asked(model) == model,
        WorkQueue::asked(model).waker == model.waker,
        WorkQueue::with_waker(model, waker).work == model.work,
        WorkQueue::with_waker(model, waker).waker == Some(waker),
{
    if model.work.len() > 0 {
        assert(model.work =~= seq![model.work[0]] + model.work.drop_first());
    }
}

} // verus!
