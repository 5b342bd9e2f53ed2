//! Priorities and queues of the manager's tasks.
use std::cmp::Ordering;
use vstd::prelude::*;

use crate::util::priority::HasStaticPriority;
use crate::util::text::i64_text;

verus! {

/// When a task of the manager is run.
///
/// Every immediate task comes before every delayed one, and those come before updates. Among tasks
/// of one kind the greater number comes first.
#[derive(Debug, Clone, Copy, PartialEq, Eq, Structural, Ord)]
pub enum TaskPriority {
    Update,
    Delayed(i64),
    Immediate(i64),
}

impl TaskPriority {
    /// The text of the priority.
    pub open spec fn text(self) -> Seq<char> {
        match self {
            TaskPriority::Immediate(val) => "Immediate("@ + crate::util::text::signed_decimal(val as int) + ")"@,
            TaskPriority::Delayed(val) => "Delayed("@ + crate::util::text::signed_decimal(val as int) + ")"@,
            TaskPriority::Update => "Update"@,
        }
    }

    /// The text of the priority.
    pub fn to_text(&self) -> (r: String)
        ensures
            r@ == self.text(),
    {
        match self {
            TaskPriority::Immediate(val) => {
                let mut s = "Immediate(".to_owned();
                let n = i64_text(*val);
                s.append(n.as_str());
                s.append(")");
                s
            },
            TaskPriority::Delayed(val) => {
                let mut s = "Delayed(".to_owned();
                let n = i64_text(*val);
                s.append(n.as_str());
                s.append(")");
                s
            },
            TaskPriority::Update => "Update".to_owned(),
        }
    }
}

impl HasStaticPriority for TaskPriority {
    open spec fn rank(&self) -> int {
        match *self {
            TaskPriority::Immediate(val) => val as int,
            TaskPriority::Delayed(val) => val - 0x1_0000_0000_0000_0000,
            TaskPriority::Update => -0x2_0000_0000_0000_0000,
        }
    }

    fn outranks(&self, other: &Self) -> (r: bool) {
        match (*self, *other) {
            (TaskPriority::Immediate(a), TaskPriority::Immediate(b)) => a > b,
            (TaskPriority::Delayed(a), TaskPriority::Delayed(b)) => a > b,
            (TaskPriority::Update, TaskPriority::Update) => false,
            (TaskPriority::Immediate(_), _) => true,
            (_, TaskPriority::Immediate(_)) => false,
            (TaskPriority::Delayed(_), TaskPriority::Update) => true,
            (TaskPriority::Update, TaskPriority::Delayed(_)) => false,
        }
    }
}

/// How two priorities compare.
pub open spec fn priority_order(a: TaskPriority, b: TaskPriority) -> Ordering {
    if a.rank() > b.rank() {
        Ordering::Greater
    } else if a.rank() < b.rank() {
        Ordering::Less
    } else {
        Ordering::Equal
    }
}

impl PartialOrd for TaskPriority {
    fn partial_cmp(&self, other: &Self) -> (r: Option<Ordering>) {
        if self.outranks(other) {
            Some(Ordering::Greater)
        } else if other.outranks(self) {
            Some(Ordering::Less)
        } else {
            Some(Ordering::Equal)
        }
    }
}

impl vstd::std_specs::cmp::PartialOrdSpecImpl for TaskPriority {
    open spec fn obeys_partial_cmp_spec() -> bool {
        true
    }

    open spec fn partial_cmp_spec(&self, other: &Self) -> Option<Ordering> {
        Some(priority_order(*self, *other))
    }
}

/// Any immediate task outranks any delayed one, which outranks any update.
pub proof fn lemma_priority_kinds(a: i64, b: i64)
    ensures
        TaskPriority::Immediate(a).rank() > TaskPriority::Delayed(b).rank(),
        TaskPriority::Delayed(b).rank() > TaskPriority::Update.rank(),
{
}

/// Priorities of the same rank are the same.
pub proof fn lemma_priority_rank_injective(a: TaskPriority, b: TaskPriority)
    requires
        a.rank() == b.rank(),
    ensures
        a == b,
{
}

/// The queue that takes a task.
#[derive(Debug, Clone, Copy, PartialEq, Eq, Structural)]
pub enum TaskQueue {
    /// The queue of immediate tasks, at the given priority in it.
    Immediate(i64),
    /// The queue of delayed tasks, at the given priority in it.
    Delayed(i64),
    /// The queue of updates, which are run in the order in which they come.
    Update,
}

/// The priorities that the three queues have among all work of a pool.
#[derive(Debug, Clone, Copy, PartialEq, Eq, Structural)]
pub struct ResourceManagerWorkerPriorityConfig {
    pub immediate: i64,
    pub delayed: i64,
    pub update: i64,
}

impl ResourceManagerWorkerPriorityConfig {
    /// Whether more urgent queues have priorities that are not lower.
    pub open spec fn is_ordered(self) -> bool {
        self.immediate >= self.delayed && self.delayed >= self.update
    }

    /// Whether more urgent queues have priorities that are not lower.
    pub fn check(&self) -> (r: bool)
        ensures
            r == self.is_ordered(),
    {
        self.immediate >= self.delayed && self.delayed >= self.update
    }
}

impl From<i64> for ResourceManagerWorkerPriorityConfig {
    fn from(priority: i64) -> (r: Self) {
        ResourceManagerWorkerPriorityConfig { immediate: priority, delayed: priority, update: priority }
    }
}

impl vstd::std_specs::convert::FromSpecImpl<i64> for ResourceManagerWorkerPriorityConfig {
    open spec fn obeys_from_spec() -> bool {
        true
    }

    open spec fn from_spec(priority: i64) -> Self {
        ResourceManagerWorkerPriorityConfig { immediate: priority, delayed: priority, update: priority }
    }
}

/// The queue for a task of the given priority.
pub fn route(priority: TaskPriority) -> (r: TaskQueue)
    ensures
        r == (match priority {
            TaskPriority::Immediate(p) => TaskQueue::Immediate(p),
            TaskPriority::Delayed(p) => TaskQueue::Delayed(p),
            TaskPriority::Update => TaskQueue::Update,
        }),
{
    match priority {
        TaskPriority::Immediate(p) => TaskQueue::Immediate(p),
        TaskPriority::Delayed(p) => TaskQueue::Delayed(p),
        TaskPriority::Update => TaskQueue::Update,
    }
}

/// Among tasks of one kind the greater number comes first.
pub proof fn lemma_greater_number_first(a: i64, b: i64)
    ensures
        TaskPriority::Immediate(a).rank() > TaskPriority::Immediate(b).rank() <==> a > b,
        TaskPriority::Delayed(a).rank() > TaskPriority::Delayed(b).rank() <==> a > b,
{
}

/// Priorities compare as they rank: the one that is run first is the greater one.
pub proof fn lemma_order_of_priorities(a: TaskPriority, b: TaskPriority, m: i64, n: i64)
    ensures
        priority_order(TaskPriority::Immediate(m), TaskPriority::Delayed(n)) == Ordering::Greater,
        priority_order(TaskPriority::Delayed(n), TaskPriority::Update) == Ordering::Greater,
        priority_order(TaskPriority::Immediate(m), TaskPriority::Update) == Ordering::Greater,
        priority_order(TaskPriority::Immediate(m), TaskPriority::Immediate(n)) == Ordering::Greater <==> m > n,
        priority_order(TaskPriority::Delayed(m), TaskPriority::Delayed(n)) == Ordering::Greater <==> m > n,
        priority_order(a, b) == Ordering::Equal <==> a == b,
        priority_order(a, b) == Ordering::Greater <==> priority_order(b, a) == Ordering::Less,
{
    if a.rank() == b.rank() {
        lemma_priority_rank_injective(a, b);
    }
}

/// One priority for all queues is in order, and queues are in order if and only if no queue comes
/// before a more urgent one.
pub proof fn lemma_queues_in_order(config: ResourceManagerWorkerPriorityConfig, priority: i64)
    ensures
        config.is_ordered() <==> !(config.immediate < config.delayed || config.delayed < config.update),
        config.is_ordered() ==> config.immediate.rank() >= config.delayed.rank() && config.delayed.rank()
            >= config.update.rank(),
        ({
            let same =
                <ResourceManagerWorkerPriorityConfig as vstd::std_specs::convert::FromSpec<i64>>::from_spec(priority);
            &&& same.is_ordered()
            &&& same.immediate == priority
            &&& same.delayed == priority
            &&& same.update == priority
        }),
{
}

/// The text of a priority names its kind and its number.
pub proof fn lemma_priority_texts(a: i64, b: i64)
    ensures
        TaskPriority::Immediate(a).text() == TaskPriority::Immediate(b).text() ==> a == b,
        TaskPriority::Delayed(a).text() == TaskPriority::Delayed(b).text() ==> a == b,
        TaskPriority::Immediate(a).text() != TaskPriority::Delayed(b).text(),
        TaskPriority::Immediate(a).text() != TaskPriority::Update.text(),
        TaskPriority::Delayed(a).text() != TaskPriority::Update.text(),
{
    reveal_strlit("Immediate(");
    reveal_strlit("Delayed(");
    reveal_strlit("Update");
    reveal_strlit(")");
    let x = crate::util::text::signed_decimal(a as int);
    let y = crate::util::text::signed_decimal(b as int);
    crate::util::text::lemma_signed_numeral(a as int);
    crate::util::text::lemma_signed_numeral(b as int);
    assert(TaskPriority::Immediate(a).text()[0] == 'I');
    assert(TaskPriority::Delayed(a).text()[0] == 'D');
    assert(TaskPriority::Delayed(b).text()[0] == 'D');
    assert(TaskPriority::Update.text()[0] == 'U');
    if TaskPriority::Immediate(a).text() == TaskPriority::Immediate(b).text() {
        let s = TaskPriority::Immediate(a).text();
        assert(s.subrange(10, s.len() - 1) =~= x);
        assert(s.subrange(10, s.len() - 1) =~= y);
    }
    if TaskPriority::Delayed(a).text() == TaskPriority::Delayed(b).text() {
        let s = TaskPriority::Delayed(a).text();
        assert(s.subrange(8, s.len() - 1) =~= x);
        assert(s.subrange(8, s.len() - 1) =~= y);
    }
}

} // verus!
