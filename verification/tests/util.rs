use std::cell::Cell;
use std::rc::Rc;
use std::sync::Arc;

use gtether::server::{EngineStage, Server, ServerBuilder};
use gtether::util::executor::{
    find_highest_vec_idx, DynamicMetadata, ExecutorBuilder, ScanQueue, Scheduled, StaticMetadata,
};
use gtether::util::pairs::{reachable, PairMap};
use gtether::util::priority::{
    DynamicPriorityQueue, HasDynamicPriority, HasStaticPriority, PriorityQueue, StaticPriorityQueue,
};
use gtether::util::table::{IdMap, IdSet};
use gtether::util::text::{i64_text, text_before, u64_text, usize_text};
use gtether::util::tick_loop::{NextTick, TickLoopBuildError, TickLoopBuilder, TickState, TickType};
use gtether::util::waker::MultiWaker;

#[test]
fn test_static_queue() {
    let mut queue: StaticPriorityQueue<isize> = StaticPriorityQueue::new();
    assert!(queue.is_empty());
    assert_eq!(queue.peek(), None);
    assert_eq!(queue.pop(), None);
    queue.push(0);
    queue.push(-2);
    queue.push(3);
    assert_eq!(queue.len(), 3);
    assert_eq!(queue.peek(), Some(&3));
    assert_eq!(queue.pop(), Some(3));
    assert_eq!(queue.pop(), Some(0));
    assert_eq!(queue.pop(), Some(-2));
    assert_eq!(queue.pop(), None);
}

#[test]
fn test_static_queue_swap() {
    let mut queue = StaticPriorityQueue::<isize>::from_items(vec![-2, 3]);
    assert_eq!(queue.len(), 2);
    assert_eq!(queue.swap_if_higher(0), 3);
    assert_eq!(queue.swap_if_higher(10), 10);
    assert_eq!(queue.pop(), Some(0));
    assert_eq!(queue.pop(), Some(-2));
}

#[test]
fn test_static_queue_sorts() {
    let mut queue = StaticPriorityQueue::<u32>::from_items(vec![5, 9, 1, 7, 3, 8, 2, 6, 4, 0]);
    let mut out = Vec::new();
    while let Some(item) = queue.pop() {
        out.push(item);
    }
    assert_eq!(out, vec![9, 8, 7, 6, 5, 4, 3, 2, 1, 0]);
}

/// A value whose priority others can change.
struct Shared(Rc<Cell<isize>>);

impl HasDynamicPriority for Shared {
    type Value = isize;

    fn current(&self) -> isize {
        unreachable!()
    }

    fn priority(&self) -> isize {
        self.0.get()
    }
}

#[test]
fn test_dynamic_queue_swap() {
    let val_a = Rc::new(Cell::new(5));
    let val_b = Rc::new(Cell::new(10));
    let mut queue = DynamicPriorityQueue::from_items(vec![Shared(val_a.clone())]);
    assert_eq!(queue.swap_if_higher(Shared(val_b.clone())).0.get(), 10);
    val_a.set(20);
    assert_eq!(queue.swap_if_higher(Shared(val_b.clone())).0.get(), 20);
    assert_eq!(queue.len(), 1);
}

#[test]
fn test_dynamic_queue_follows_priorities() {
    let values: Vec<Rc<Cell<isize>>> = (0..3).map(|i| Rc::new(Cell::new(i))).collect();
    let mut queue = DynamicPriorityQueue::new();
    for value in &values {
        queue.push(Shared(value.clone()));
    }
    assert_eq!(queue.peek().unwrap().0.get(), 2);
    values[0].set(7);
    assert_eq!(queue.pop().unwrap().0.get(), 7);
    assert_eq!(queue.pop().unwrap().0.get(), 2);
    assert_eq!(queue.pop().unwrap().0.get(), 1);
    assert!(queue.pop().is_none());
    assert!(queue.is_empty());
}

#[test]
fn test_executor_drops() {
    let mut executor = ExecutorBuilder::new().worker_count(1).static_priority::<usize>();
    let (_slot, woken) = executor.spawn(StaticMetadata::new(0), 17);
    assert!(woken.is_empty());
    assert!(!executor.is_empty());

    assert_eq!(executor.drain_active(), vec![17]);
    executor.drain_queue();
    assert!(executor.is_empty());
    assert!(executor.runnable(0, 1).is_none());
}

#[test]
fn test_executor_static_priority() {
    let mut executor = ExecutorBuilder::new().worker_count(1).static_priority::<usize>();
    let mut output = vec![];
    let (tasks, woken) = executor.spawn_many(vec![
        (StaticMetadata::new(1), 1),
        (StaticMetadata::new(0), 0),
        (StaticMetadata::new(2), 2),
    ]);
    assert!(woken.is_empty());
    while let Some(scheduled) = executor.runnable(0, 1) {
        output.push(scheduled.task);
    }
    for task in tasks {
        assert!(executor.finish(task).is_some());
    }
    assert!(executor.is_empty());
    assert_eq!(output, [2, 1, 0]);
}

#[test]
fn test_executor_dynamic_priority() {
    let mut executor = ExecutorBuilder::new().worker_count(1).dynamic_priority::<usize>();
    let mut output = vec![];
    let (tasks, woken) = executor.spawn_many(vec![
        (DynamicMetadata::new(1), 1),
        (DynamicMetadata::new(0), 0),
        (DynamicMetadata::new(2), 2),
    ]);
    assert!(woken.is_empty());
    while let Some(scheduled) = executor.runnable(0, 1) {
        output.push(scheduled.task);
    }
    for task in tasks {
        assert!(executor.finish(task).is_some());
    }
    assert!(executor.is_empty());
    assert_eq!(output, [2, 1, 0]);
}

#[test]
fn test_executor_wakes_sleepers() {
    let mut executor = ExecutorBuilder::new().worker_count(2).static_priority::<usize>();
    assert!(executor.runnable(0, 100).is_none());
    assert!(executor.runnable(0, 101).is_none());
    assert!(executor.runnable(1, 200).is_none());
    let (slots, woken) = executor.spawn_many(vec![(StaticMetadata::new(1), 5), (StaticMetadata::new(1), 6)]);
    assert_eq!(woken, vec![100, 200]);
    assert_ne!(slots[0], slots[1]);
    let first = executor.runnable(1, 201).unwrap();
    assert_eq!(first.metadata.attempts, 1);
    assert!(executor.schedule(first.metadata, first.task).is_empty());
    assert_eq!(executor.finish(slots[0]), Some(5));
    assert_eq!(executor.finish(slots[0]), None);
}

#[test]
fn test_retries_raise_the_priority_of_equals() {
    let fresh = StaticMetadata { priority: 3u32, attempts: 0 };
    let retried = StaticMetadata { priority: 3u32, attempts: 1 };
    assert!(!fresh.outranks(&fresh));
    assert!(retried.outranks(&fresh));
    assert!(!fresh.outranks(&retried));
    assert!(StaticMetadata::new(4u32).outranks(&fresh));
    assert_eq!(StaticMetadata::new(4u32).into_inner(), 4);
    assert_eq!(DynamicMetadata::new(4u32).into_inner(), 4);
}

#[test]
fn test_priorities_of_other_types() {
    assert!(!().outranks(&()));
    assert!(true.outranks(&false) && !false.outranks(&true) && !true.outranks(&true));
    assert!(Arc::new(3i128).outranks(&Arc::new(2i128)));
    assert_eq!(Arc::new(7u8).priority(), 7);
    let mut queue: StaticPriorityQueue<u32> = StaticPriorityQueue::new();
    for value in [5, 1, 4, 9, 2, 9, 0, 7] {
        queue.push(value);
    }
    let mut order = Vec::new();
    while let Some(value) = queue.pop() {
        order.push(value);
    }
    assert_eq!(order, vec![9, 9, 7, 5, 4, 2, 1, 0]);
}

#[test]
fn test_scan_queue() {
    assert_eq!(find_highest_vec_idx::<i32>(&vec![]), None);
    assert_eq!(find_highest_vec_idx(&vec![2, 7, 7, 1]).map(|i| vec![2, 7, 7, 1][i]), Some(7));
    let mut queue: ScanQueue<DynamicMetadata<i32>> = ScanQueue::new();
    queue.push(Scheduled { metadata: DynamicMetadata::new(1), task: 1 });
    queue.push(Scheduled { metadata: DynamicMetadata::new(9), task: 9 });
    assert_eq!(queue.peek().unwrap().task, 9);
    assert_eq!(queue.pop().unwrap().task, 9);
    assert_eq!(queue.len(), 1);
}

#[test]
fn test_tables() {
    let mut set: IdSet<u64> = IdSet::new();
    assert!(set.insert(3));
    assert!(set.insert(1));
    assert!(!set.insert(3));
    assert_eq!((set.len(), *set.at(0), *set.at(1)), (2, 3, 1));
    let copy = set.duplicate();
    assert!(set.remove(&3));
    assert!(!set.remove(&3));
    assert!(copy.contains(&3) && !set.contains(&3));
    set.insert_all(&copy);
    assert_eq!(set.len(), 2);
    set.clear();
    assert!(set.is_empty());

    let mut map: IdMap<u64, &str> = IdMap::new();
    assert_eq!(map.insert(4, "a"), None);
    assert_eq!(map.insert(2, "b"), None);
    assert_eq!(map.insert(4, "c"), Some("a"));
    assert_eq!((*map.key_at(0), *map.value_at(0)), (4, "c"));
    assert_eq!(map.get(&2), Some(&"b"));
    assert_eq!(map.remove(&2), Some("b"));
    assert_eq!(map.remove(&2), None);
    assert!(map.contains_key(&4));
    map.clear();
    assert_eq!(map.len(), 0);
}

#[test]
fn test_pairs_reach() {
    let mut forward: PairMap<u64, u64> = PairMap::new();
    let mut backward: PairMap<u64, u64> = PairMap::new();
    for (a, b) in [(1, 2), (2, 3), (3, 1), (4, 1)] {
        forward.insert(a, b);
        backward.insert(b, a);
    }
    let from_four = reachable(&forward, &backward, &4);
    assert_eq!(from_four.len(), 3);
    assert!(from_four.contains(&3) && !from_four.contains(&4));
    let from_one = reachable(&forward, &backward, &1);
    assert!(from_one.contains(&1));
    assert!(forward.remove(&1, &2));
    assert!(!forward.contains_key(&1));
    assert_eq!(forward.take(&2).len(), 1);
    assert_eq!(forward.key_count(), 2);
}

#[test]
fn test_texts() {
    assert_eq!(u64_text(0), "0");
    assert_eq!(u64_text(u64::MAX), "18446744073709551615");
    assert_eq!(usize_text(1024), "1024");
    assert_eq!(i64_text(-70), "-70");
    assert_eq!(i64_text(i64::MIN), "-9223372036854775808");
    assert!(text_before("a", "b"));
    assert!(text_before("a", "ab"));
    assert!(!text_before("a", "a"));
    assert!(text_before("z", "\u{e9}"));
}

#[test]
fn test_multi_waker() {
    let mut waker = MultiWaker::new();
    waker.push(1);
    waker.push(2);
    let mut other = MultiWaker::new();
    other.push(3);
    waker.extend(&mut other);
    assert!(other.is_empty());
    assert_eq!(waker.len(), 3);
    let mut alive = IdSet::new();
    alive.insert(1);
    alive.insert(3);
    assert_eq!(waker.wake(&alive), vec![1, 3]);
    assert_eq!(waker.len(), 2);
}

#[test]
fn test_ticks_at_a_rate() {
    let rate = TickType::Rate(100);
    assert_eq!(rate.next_tick(1000, 1001, 10), NextTick { at: Some(1010), skipped: 0 });
    assert_eq!(rate.next_tick(1000, 1010, 10), NextTick { at: Some(1010), skipped: 0 });
    assert_eq!(rate.next_tick(1000, 1035, 10), NextTick { at: Some(1040), skipped: 3 });
}

#[test]
fn test_ticks_with_a_minimum_distance() {
    let min = TickType::MinDuration(10);
    assert_eq!(min.next_tick(1000, 1001, 1), NextTick { at: Some(1010), skipped: 0 });
    assert_eq!(min.next_tick(1000, 1010, 1), NextTick { at: None, skipped: 0 });
    let state = TickState::after_tick(min, 1000, 1001, 1);
    assert_eq!(state.delay(1001), 9);
    assert_eq!(state.delay(1020), 0);
    assert_eq!(state.delta(1012), 12);
    assert_eq!(TickType::default(), TickType::MinDuration(10_000_000));
}

#[test]
fn test_tick_loop_runs_until_a_tick_ends_it() {
    let inits = Cell::new(0);
    let seen = std::cell::RefCell::new(Vec::new());
    let builder = TickLoopBuilder::new()
        .min_tick_duration(0)
        .init(|| {
            inits.set(inits.get() + 1);
            Ok::<usize, ()>(0)
        })
        .tick(|count: &mut usize, delta: u64| {
            seen.borrow_mut().push((*count, delta));
            *count += 1;
            *count < 3
        });
    let tick_loop = match builder.start() {
        Ok(tick_loop) => tick_loop,
        Err(_) => panic!("the loop should start"),
    };
    assert_eq!(inits.get(), 1);
    let mut run = tick_loop.run(0, 0, 0);
    assert_eq!(run.state.delay(0), 0);
    let mut now = 5;
    loop {
        run = match run.tick(now) {
            Some(run) => run.after_tick(now, now + 1, 0),
            None => break,
        };
        now += 10;
    }
    assert_eq!(inits.get(), 1);
    assert_eq!(*seen.borrow(), vec![(0, 5), (1, 10), (2, 10)]);
}

#[test]
fn test_tick_loop_builder() {
    let build = || TickLoopBuilder::<fn() -> Result<u8, String>, u32>::new();
    let missing = build().start::<u8, String>();
    assert!(matches!(&missing, Err(e) if e.to_text("") == "Missing required option: 'init'"));
    let missing = build().init(|| Ok(1)).start::<u8, String>();
    assert!(matches!(&missing, Err(e) if e.to_text("") == "Missing required option: 'tick'"));
    let failed = build().init(|| Err("no".to_string())).tick(4).start();
    assert!(matches!(&failed, Err(TickLoopBuildError::InitError(e)) if e == "no"));
    assert!(matches!(&failed, Err(e) if e.to_text("no") == "Initialization failed: no"));
    let started = build().init(|| Ok(9)).tick(4).tick_rate(60).start();
    let tick_loop = match started {
        Ok(tick_loop) => tick_loop,
        Err(_) => panic!("the loop should start"),
    };
    assert_eq!(tick_loop.name, "tick-loop");
    assert_eq!(tick_loop.tick_type, TickType::Rate(60));
    assert_eq!((tick_loop.data, tick_loop.fn_tick), (9, 4));
    let named = build().init(|| Ok(9)).tick(4).name("n".to_string()).min_tick_duration(5).start();
    assert!(matches!(named, Ok(l) if l.name == "n" && l.tick_type == TickType::MinDuration(5)));
}

#[test]
fn test_server() {
    assert_eq!(Server::builder().build(), Server { tick_rate: 60 });
    assert_eq!(ServerBuilder::new().tick_rate(30).build().tick_rate, 30);
    assert_eq!(Server::after_tick(EngineStage::Stopping), (Some(EngineStage::Stopped), false));
    assert_eq!(Server::after_tick(EngineStage::Running), (None, true));
}
