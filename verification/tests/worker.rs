use std::collections::HashMap;

use gtether::worker::pool::{Bucket, State, WorkerAction, WorkerPoolBuilder};
use gtether::worker::task::{Received, WorkQueue, WorkTask, WorkTaskError};
use gtether::worker::{FindWorkError, WeakSource, WorkSource};

fn lap(bucket: &mut Bucket<usize>, thread: u64, limit: usize) -> Vec<usize> {
    let mut ring = bucket.iter_ring();
    let mut places = Vec::new();
    while places.len() < limit {
        match ring.next(bucket, thread) {
            Some(place) => places.push(place),
            None => break,
        }
    }
    places
}

fn check_ring(count: usize, expected_a: Vec<usize>, offset: usize, expected_b: Vec<usize>) {
    let mut bucket = Bucket::from_values((0..count).collect());
    assert_eq!(lap(&mut bucket, 7, usize::MAX), expected_a);
    lap(&mut bucket, 7, offset);
    assert_eq!(lap(&mut bucket, 7, usize::MAX), expected_b);
    assert_eq!(lap(&mut bucket, 8, usize::MAX), expected_a);
}

#[test]
fn test_bucket_iter_ring_empty() {
    check_ring(0, vec![], 0, vec![]);
}

#[test]
fn test_bucket_iter_ring_single() {
    check_ring(1, vec![0], 1, vec![0]);
}

#[test]
fn test_bucket_iter_ring_many() {
    check_ring(3, vec![0, 1, 2], 2, vec![2, 0, 1]);
}

/// Runs all work of a pool with one worker.
fn run_pool(input: Vec<(isize, Vec<&'static str>)>) -> Vec<&'static str> {
    let mut names: HashMap<u64, &'static str> = HashMap::new();
    let mut state: State<i64, WorkQueue> = State::new();
    for (priority, values) in input {
        let mut queue = WorkQueue::new();
        for value in values {
            let work = names.len() as u64;
            names.insert(work, value);
            let (task, waker) = queue.execute(work);
            assert_eq!(waker, None);
            assert!(matches!(task.try_poll::<u64>(Received::Empty), Err(_)));
        }
        assert!(state.insert_source(priority as i64, queue).is_empty());
    }
    let mut output = Vec::new();
    loop {
        match state.next_action(1, false, 99) {
            WorkerAction::Execute(work) => output.push(names[&work]),
            WorkerAction::Again => {}
            WorkerAction::Park => return output,
            WorkerAction::Exit => unreachable!(),
        }
    }
}

#[test]
fn test_worker_pool_priorities_single() {
    assert_eq!(run_pool(vec![(0, vec!["a", "b", "c"])]), vec!["a", "b", "c"]);
}

#[test]
fn test_worker_pool_priorities_same() {
    assert_eq!(
        run_pool(vec![(0, vec!["a1", "b1", "c1"]), (0, vec!["a2", "b2", "c2"])]),
        vec!["a1", "a2", "b1", "b2", "c1", "c2"],
    );
}

#[test]
fn test_worker_pool_priorities_different() {
    assert_eq!(
        run_pool(vec![(-1, vec!["a2", "b2"]), (1, vec!["a1", "b1"]), (0, vec!["a3", "b3"])]),
        vec!["a1", "b1", "a3", "b3", "a2", "b2"],
    );
}

#[test]
fn test_worker_pool_priorities_mixed() {
    assert_eq!(
        run_pool(vec![(0, vec!["a2", "b2"]), (1, vec!["a1", "b1"]), (0, vec!["a3", "b3"])]),
        vec!["a1", "b1", "a2", "a3", "b2", "b3"],
    );
}

#[test]
fn test_worker_pool_sleep_and_wake() {
    let mut state: State<i64, WorkQueue> = State::new();
    assert!(state.insert_source(0, WorkQueue::new()).is_empty());
    assert_eq!(state.next_action(1, false, 99), WorkerAction::Again);
    assert_eq!(state.next_action(1, false, 99), WorkerAction::Park);
    assert_eq!(state.next_action(2, false, 99), WorkerAction::Again);
    assert_eq!(state.wake(), vec![1, 2]);
    assert_eq!(state.next_action(1, false, 99), WorkerAction::Again);
    let mut queue = WorkQueue::new();
    queue.execute(5);
    assert_eq!(state.insert_source(3, queue), vec![1]);
    assert_eq!(state.next_action(1, false, 99), WorkerAction::Execute(5));
    assert_eq!(state.next_action(1, true, 99), WorkerAction::Exit);
}

#[test]
fn test_worker_pool_forgets_disconnected_sources() {
    let mut state: State<i64, WeakSource<WorkQueue>> = State::new();
    let mut gone = WeakSource::new(WorkQueue::new());
    gone.drop_source();
    let mut queue = WorkQueue::new();
    queue.execute(1);
    queue.execute(2);
    state.insert_source(0, gone);
    state.insert_source(0, WeakSource::new(queue));
    assert_eq!(state.find_work(1), Some(1));
    assert_eq!(state.find_work(1), Some(2));
    assert_eq!(state.find_work(1), None);
}

#[test]
fn test_work_queue_order_and_wakers() {
    let mut queue = WorkQueue::new();
    assert!(queue.is_empty());
    assert_eq!(queue.find_work(), Err(FindWorkError::NoWork));
    queue.set_worker_waker(4);
    let (task, waker) = queue.execute(10);
    assert_eq!(waker, Some(4));
    assert_eq!(task, WorkTask { polling: false });
    assert_eq!(queue.execute(11).1, None);
    assert_eq!(queue.len(), 2);
    assert!(!queue.is_empty());
    assert_eq!(queue.find_work(), Ok(10));
    assert_eq!(queue.find_work(), Ok(11));
    assert_eq!(queue.find_work(), Err(FindWorkError::NoWork));
    assert_eq!(queue.len(), 0);
}

#[test]
fn test_weak_source() {
    let mut queue = WorkQueue::new();
    queue.execute(3);
    let mut weak = WeakSource::new(queue);
    assert_eq!(weak.find_work(), Ok(3));
    assert_eq!(weak.find_work(), Err(FindWorkError::NoWork));
    weak.set_worker_waker(1);
    weak.drop_source();
    assert_eq!(weak.find_work(), Err(FindWorkError::Disconnected));
}

#[test]
fn test_work_task_results() {
    assert!(matches!(WorkTask::new().try_poll(Received::Value("v")), Ok(Ok("v"))));
    assert!(matches!(
        WorkTask::new().try_poll::<u8>(Received::Closed),
        Ok(Err(WorkTaskError::Cancelled))
    ));
    let mut task = WorkTask::new();
    assert_eq!(task.debug_text(), "WorkTask { state: \"incomplete\" }");
    assert_eq!(task.poll::<u8>(Received::Empty), None);
    assert_eq!(task.debug_text(), "WorkTask { state: \"polling\" }");
    assert_eq!(task.poll(Received::Value(7)), Some(Ok(7)));
    assert_eq!(task.poll::<u8>(Received::Closed), Some(Err(WorkTaskError::Cancelled)));
}

#[test]
fn test_worker_error_texts() {
    assert_eq!(FindWorkError::NoWork.to_text(), "no work available");
    assert_eq!(FindWorkError::Disconnected.to_text(), "work source is disconnected");
    assert_eq!(WorkTaskError::Cancelled.to_text(), "work task was cancelled");
}

#[test]
fn test_worker_names() {
    let names = WorkerPoolBuilder::new().worker_count(3).prefix("my-worker".to_string()).start(Some(8));
    assert_eq!(names, vec!["my-worker-0", "my-worker-1", "my-worker-2"]);
    assert_eq!(WorkerPoolBuilder::new().start(None), vec!["worker-0"]);
    assert_eq!(WorkerPoolBuilder::new().start(Some(2)).len(), 2);
    assert_eq!(WorkerPoolBuilder::single().start(Some(5)), vec!["worker-0"]);
}
