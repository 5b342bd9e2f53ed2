use std::cell::RefCell;
use std::collections::HashMap;
use std::rc::Rc;

use gtether::resource::id::{IdTable, ResourceId};
use gtether::resource::manager::direct::{
    FuturePoll, LoadBegun, Request, ResourceFuture, ResourceManager, UpdateBegun, UpdateOutcome, UpdateToApply,
};
use gtether::resource::manager::entry::LoadOutcome;
use gtether::resource::manager::load::LoadPriority;
use gtether::resource::source::{
    BulkResourceUpdate, DataSourceView, DataView, ResourceData, ResourceDataResult, ResourceDataSource, ResourceSource, ResourceUpdate,
    SourceIndex,
};
use gtether::resource::watcher::{ResourceWatcher, ResourceWatcherSender};
use gtether::resource::{LoadErrorView, ResourceLoadError};
use gtether::util::table::{IdMap, IdSet};

type DataMap = Rc<RefCell<HashMap<u32, (Vec<u8>, String)>>>;

/// A source whose data the tests change.
struct TestSource {
    data: DataMap,
}

impl ResourceSource for TestSource {
    fn hash_of(&self, _id: ResourceId) -> Option<DataSourceView> {
        unreachable!()
    }

    fn data_of(&self, _id: ResourceId) -> Result<DataView, LoadErrorView> {
        unreachable!()
    }

    fn sub_data_of(&self, _id: ResourceId, _sub_idx: SourceIndex) -> Result<DataView, LoadErrorView> {
        unreachable!()
    }

    fn hash(&self, id: &ResourceId) -> Option<ResourceDataSource> {
        self.data.borrow().get(&id.index).map(|(_, hash)| ResourceDataSource::new(hash.clone()))
    }

    fn load(&self, id: &ResourceId) -> ResourceDataResult {
        match self.data.borrow().get(&id.index) {
            Some((data, hash)) => Ok(ResourceData::new(data.clone(), hash.clone())),
            None => Err(ResourceLoadError::NotFound(*id)),
        }
    }

    fn sub_load(&self, id: &ResourceId, _sub_idx: &SourceIndex) -> ResourceDataResult {
        Err(ResourceLoadError::NotFound(*id))
    }
}

const STRING_TYPE: u64 = 1;

/// A manager of strings, with its loader and its tasks.
struct Harness {
    manager: ResourceManager<TestSource>,
    data_maps: Vec<DataMap>,
    table: IdTable,
    live: IdSet<u64>,
    values: HashMap<u64, String>,
    finished: HashMap<u64, LoadOutcome>,
    tasks: Vec<(u64, ResourceId)>,
    next: u64,
    loads: usize,
    updates: usize,
}

fn parse(data: &[u8]) -> Result<String, ResourceLoadError> {
    String::from_utf8(data.to_vec()).map_err(|e| ResourceLoadError::from_error(e.to_string()))
}

impl Harness {
    fn new(count: usize) -> Self {
        let mut builder = ResourceManager::builder();
        let mut data_maps: Vec<DataMap> = Vec::new();
        for _ in 0..count {
            let data: DataMap = Rc::new(RefCell::new(HashMap::new()));
            data_maps.push(data.clone());
            builder = builder.source(TestSource { data }, ResourceWatcher::new(IdMap::new()));
        }
        let mut out = Vec::new();
        let manager = builder.build(ResourceWatcherSender { channel: 1 }, &mut out);
        assert!(out.is_empty());
        Harness {
            manager,
            data_maps,
            table: IdTable::new(),
            live: IdSet::new(),
            values: HashMap::new(),
            finished: HashMap::new(),
            tasks: Vec::new(),
            next: 1,
            loads: 0,
            updates: 0,
        }
    }

    fn id(&mut self, key: &str) -> ResourceId {
        ResourceId::new(key, &mut self.table)
    }

    fn request(&mut self, key: &str) -> Request {
        Request { id: self.id(key), resource_type: STRING_TYPE, priority: LoadPriority::immediate() }
    }

    fn get_or_load(&mut self, key: &str) -> ResourceFuture {
        let request = self.request(key);
        self.ask(request)
    }

    fn ask(&mut self, request: Request) -> ResourceFuture {
        let outcome = match self.manager.awaited_task(&request) {
            Some(task) => self.finished.remove(&task),
            None => None,
        };
        let task = self.next;
        self.next += 1;
        let (future, started) = self.manager.get_or_load(request, task, outcome, &self.live);
        if started {
            self.tasks.push((task, request.id));
        }
        future
    }

    /// Runs all load tasks.
    fn run(&mut self) {
        for (task, id) in std::mem::take(&mut self.tasks) {
            let outcome = match self.manager.begin_load(&id) {
                LoadBegun::Loader(data) => {
                    let result = parse(&data.data).map(|text| {
                        let resource = self.next;
                        self.next += 1;
                        self.values.insert(resource, text);
                        self.live.insert(resource);
                        resource
                    });
                    ResourceManager::<TestSource>::finish_load(data.source, result)
                }
                LoadBegun::Done(outcome) => outcome,
            };
            self.loads += 1;
            self.finished.insert(task, outcome);
        }
    }

    fn outcome_for(&mut self, future: &ResourceFuture) -> Option<LoadOutcome> {
        match future {
            ResourceFuture::Delayed { entry, .. } | ResourceFuture::Awaiting { entry, .. } => {
                self.finished.remove(entry)
            }
            _ => None,
        }
    }

    /// Waits for a result.
    fn wait(&mut self, mut future: ResourceFuture) -> Result<u64, ResourceLoadError> {
        loop {
            self.run();
            let outcome = self.outcome_for(&future);
            match future.poll(&mut self.manager, 1, outcome, &self.live) {
                FuturePoll::Ready(result) => return result,
                FuturePoll::Pending => panic!("the result should be there"),
                FuturePoll::Reload(request) => future = self.ask(request),
            }
        }
    }

    /// Looks whether there is a result.
    fn check(&mut self, future: ResourceFuture) -> Result<Result<u64, ResourceLoadError>, ResourceFuture> {
        let outcome = self.outcome_for(&future);
        match future.check(&mut self.manager, outcome, &self.live) {
            (FuturePoll::Ready(result), _) => Ok(result),
            (FuturePoll::Pending, future) => Err(future),
            (FuturePoll::Reload(request), _) => {
                let again = self.ask(request);
                self.check(again)
            }
        }
    }

    fn insert(&mut self, source: usize, key: &str, data: &[u8], hash: &str) {
        let id = self.id(key);
        let before = self.data_maps[source].borrow_mut().insert(id.index, (data.to_vec(), hash.to_string()));
        let update = match before {
            Some(_) => ResourceUpdate::Modified(hash.to_string()),
            None => ResourceUpdate::Added(hash.to_string()),
        };
        self.notify(source, id, update);
    }

    fn remove(&mut self, source: usize, key: &str) {
        let id = self.id(key);
        if self.data_maps[source].borrow_mut().remove(&id.index).is_some() {
            self.notify(source, id, ResourceUpdate::Removed);
        }
    }

    /// Reports an update, if it is watched for, and carries out what follows.
    fn notify(&mut self, source: usize, id: ResourceId, update: ResourceUpdate) {
        if !self.manager.watcher(source).is_watched(&id) {
            return;
        }
        let mut out = Vec::new();
        self.manager.watcher(source).notify_update(BulkResourceUpdate::single(id, update), &mut out);
        for outgoing in out {
            assert_eq!(outgoing.sender, ResourceWatcherSender { channel: 1 });
            let updates = &outgoing.msg.bulk_update.updates;
            let begun = self.manager.begin_update(
                updates.key_at(0),
                outgoing.msg.src_idx.clone(),
                updates.value_at(0),
                &self.live,
            );
            match begun {
                UpdateBegun::Nothing => {}
                UpdateBegun::Apply(work) => self.apply(id, work),
                UpdateBegun::Wait(_) => panic!("no other update should be running"),
            }
            self.updates += 1;
        }
    }

    /// Carries out an update that has begun.
    fn apply(&mut self, id: ResourceId, work: UpdateToApply) {
        let outcome = match parse(&work.data.data) {
            Ok(text) => {
                self.values.insert(work.resource, text);
                UpdateOutcome::Done(work.data.source)
            }
            Err(_) => UpdateOutcome::Failed,
        };
        self.manager.finish_update(&id, work.entry, &work.source_idx, outcome);
    }

    fn assert_watch(&mut self, source: usize, key: &str, should_watch: bool) {
        let id = self.id(key);
        assert_eq!(self.manager.watcher(source).is_watched(&id), should_watch);
    }

    fn drop_value(&mut self, resource: u64) {
        self.live.remove(&resource);
    }
}

#[test]
fn test_resource_manager_not_found() {
    let mut h = Harness::new(1);
    let fut = h.get_or_load("key");
    let err = h.wait(fut).expect_err("No resource data should be present for 'key'");
    assert!(matches!(err, ResourceLoadError::NotFound(id) if id == h.id("key")));
    assert_eq!(h.loads, 1);

    h.loads = 0;
    let fut = h.get_or_load("key");
    let err = h
        .check(fut)
        .expect("Error should be cached and pollable")
        .expect_err("No resource data should be present for 'key'");
    assert!(matches!(err, ResourceLoadError::NotFound(id) if id == h.id("key")));
    assert_eq!(h.loads, 0);
}

#[test]
fn test_resource_manager_load_error() {
    let mut h = Harness::new(1);
    h.insert(0, "invalid", b"\xC0", "h_invalid");
    let fut = h.get_or_load("invalid");
    let fut = h.check(fut).expect_err("Resource should not be loaded yet");
    let error = h.wait(fut).expect_err("Resource should fail to load for 'invalid'");
    assert!(matches!(error, ResourceLoadError::ReadError(_)));
    assert_eq!(h.loads, 1);

    h.loads = 0;
    let fut = h.get_or_load("invalid");
    let error = h
        .check(fut)
        .expect("Error should be cached and pollable")
        .expect_err("Resource should still fail to load for 'invalid'");
    assert!(matches!(error, ResourceLoadError::ReadError(_)));
    assert_eq!(h.loads, 0);
}

#[test]
fn test_resource_manager_found() {
    let mut h = Harness::new(1);
    h.insert(0, "key", b"value", "h_value");
    let fut = h.get_or_load("key");
    let fut = h.check(fut).expect_err("Resource should not be loaded yet");
    let value = h.wait(fut).expect("Resource should load for 'key'");
    assert_eq!(h.values[&value], "value");
    assert_eq!(h.loads, 1);

    h.loads = 0;
    let fut = h.get_or_load("key");
    let value = h
        .check(fut)
        .expect("Resource should be cached and pollable")
        .expect("Resource should still be loaded for 'key'");
    assert_eq!(h.values[&value], "value");
    assert_eq!(h.loads, 0);
}

#[test]
fn test_resource_manager_drop_first_should_reload_second() {
    let mut h = Harness::new(1);
    h.insert(0, "key", b"value", "h_value");
    h.assert_watch(0, "key", false);
    let fut1 = h.get_or_load("key");
    let fut2 = h.get_or_load("key");
    let value = h.wait(fut1).expect("Resource should load for 'key'");
    assert_eq!(h.values[&value], "value");
    h.assert_watch(0, "key", true);
    assert_eq!(h.loads, 1);

    h.drop_value(value);
    let value = h.wait(fut2).expect("Resource should reload for 'key' after first handle was dropped");
    assert_eq!(h.values[&value], "value");
    assert_eq!(h.loads, 2);
}

#[test]
fn test_resource_manager_update_value_to_value() {
    let mut h = Harness::new(1);
    h.insert(0, "key", b"value", "h_value");
    h.assert_watch(0, "key", false);
    let fut = h.get_or_load("key");
    let value = h.wait(fut).expect("Resource should load for 'key'");
    h.assert_watch(0, "key", true);
    assert_eq!(h.updates, 0);
    assert_eq!(h.values[&value], "value");

    h.insert(0, "key", b"new_value", "h_new_value");
    assert_eq!(h.updates, 1);
    assert_eq!(h.values[&value], "new_value");
    h.assert_watch(0, "key", true);
}

#[test]
fn test_resource_manager_update_value_to_error() {
    let mut h = Harness::new(1);
    h.insert(0, "key", b"value", "h_value");
    h.assert_watch(0, "key", false);
    let fut = h.get_or_load("key");
    let value = h.wait(fut).expect("Resource should load for 'key'");
    h.assert_watch(0, "key", true);
    assert_eq!(h.updates, 0);
    assert_eq!(h.values[&value], "value");

    h.insert(0, "key", b"\xC0", "h_invalid");
    assert_eq!(h.updates, 1);
    assert_eq!(h.values[&value], "value");
    h.assert_watch(0, "key", true);
}

#[test]
fn test_resource_manager_update_error_to_value() {
    let mut h = Harness::new(1);
    h.insert(0, "key", b"\xC0", "h_invalid");
    let fut = h.get_or_load("key");
    let error = h.wait(fut).expect_err("Resource should fail to load for 'key'");
    assert!(matches!(error, ResourceLoadError::ReadError(_)));
    h.assert_watch(0, "key", true);
    assert_eq!(h.updates, 0);

    h.insert(0, "key", b"new_value", "h_new_value");
    assert_eq!(h.updates, 1);

    let fut = h.get_or_load("key");
    let value = h.wait(fut).expect("Resource should load for 'key'");
    assert_eq!(h.values[&value], "new_value");
    h.assert_watch(0, "key", true);
}

#[test]
fn test_resource_manager_source_priorities() {
    let mut h = Harness::new(3);
    h.insert(1, "key", b"value_1", "h_value_1");
    h.insert(2, "key", b"value_2", "h_value_2");

    let fut = h.get_or_load("key");
    let value = h.wait(fut).expect("Resource should load for 'key'");
    assert_eq!(h.values[&value], "value_1");
    assert_eq!(h.updates, 0);
    h.assert_watch(0, "key", true);
    h.assert_watch(1, "key", true);
    h.assert_watch(2, "key", false);

    h.insert(2, "key", b"new_value_2", "h_new_value_2");
    assert_eq!(h.values[&value], "value_1");
    assert_eq!(h.updates, 0);
    h.assert_watch(0, "key", true);
    h.assert_watch(1, "key", true);
    h.assert_watch(2, "key", false);

    h.insert(1, "key", b"new_value_1", "h_new_value_1");
    assert_eq!(h.updates, 1);
    assert_eq!(h.values[&value], "new_value_1");
    h.assert_watch(0, "key", true);
    h.assert_watch(1, "key", true);
    h.assert_watch(2, "key", false);

    h.insert(0, "key", b"new_value_0", "h_new_value_0");
    assert_eq!(h.updates, 2);
    assert_eq!(h.values[&value], "new_value_0");
    h.assert_watch(0, "key", true);
    h.assert_watch(1, "key", false);
    h.assert_watch(2, "key", false);

    h.insert(1, "key", b"new_new_value_1", "h_new_new_value_1");
    assert_eq!(h.values[&value], "new_value_0");
    h.assert_watch(0, "key", true);
    h.assert_watch(1, "key", false);
    h.assert_watch(2, "key", false);

    h.remove(0, "key");
    assert_eq!(h.updates, 3);
    assert_eq!(h.values[&value], "new_new_value_1");
    h.assert_watch(0, "key", true);
    h.assert_watch(1, "key", true);
    h.assert_watch(2, "key", false);
}

#[test]
fn test_resource_manager_hashing() {
    let mut h = Harness::new(1);
    h.insert(0, "key", b"value", "h_value");
    let fut = h.get_or_load("key");
    let value = h.wait(fut).expect("Resource should load for 'key'");
    assert_eq!(h.values[&value], "value");

    h.insert(0, "key", b"new_value", "h_value");
    assert_eq!(h.updates, 1);
    assert_eq!(h.values[&value], "value");

    h.insert(0, "key", b"new_value", "h_new_value");
    assert_eq!(h.updates, 2);
    assert_eq!(h.values[&value], "new_value");
}

#[test]
fn test_direct_type_mismatch() {
    let mut h = Harness::new(1);
    h.insert(0, "key", b"value", "h_value");
    let fut = h.get_or_load("key");
    let mut request = h.request("key");
    request.resource_type = 2;
    let other = h.ask(request);
    let error = h.check(other).expect("The type is known at once").expect_err("It is another type");
    assert!(matches!(error, ResourceLoadError::TypeMismatch { requested: 2, actual: 1 }));
    let value = h.wait(fut).expect("Resource should load for 'key'");
    let other = h.ask(request);
    let error = h.check(other).expect("The type is known at once").expect_err("It is another type");
    assert!(matches!(error, ResourceLoadError::TypeMismatch { requested: 2, actual: 1 }));
    assert_eq!(h.values[&value], "value");
}

#[test]
fn test_direct_update_of_a_dropped_resource_evicts() {
    let mut h = Harness::new(1);
    h.insert(0, "key", b"value", "h_value");
    let fut = h.get_or_load("key");
    let value = h.wait(fut).expect("Resource should load for 'key'");
    h.assert_watch(0, "key", true);
    h.drop_value(value);
    h.insert(0, "key", b"new_value", "h_new_value");
    h.assert_watch(0, "key", false);
    let request = h.request("key");
    assert_eq!(h.manager.awaited_task(&request), None);
}

#[test]
fn test_direct_update_waits_for_another_one() {
    let mut h = Harness::new(1);
    h.insert(0, "key", b"value", "h_value");
    let fut = h.get_or_load("key");
    let value = h.wait(fut).expect("Resource should load for 'key'");
    let id = h.id("key");
    let put = |h: &Harness, text: &str| {
        h.data_maps[0].borrow_mut().insert(id.index, (text.as_bytes().to_vec(), format!("h_{text}")));
        ResourceUpdate::Modified(format!("h_{text}"))
    };

    let update = put(&h, "first");
    let first = match h.manager.begin_update(&id, SourceIndex::new(0), &update, &h.live) {
        UpdateBegun::Apply(work) => work,
        _ => panic!("the first update should begin"),
    };
    let update = put(&h, "second");
    let waiting = match h.manager.begin_update(&id, SourceIndex::new(0), &update, &h.live) {
        UpdateBegun::Wait(waiting) => waiting,
        _ => panic!("the second update should wait"),
    };
    let waiting = match h.manager.resume_update(waiting, &h.live) {
        UpdateBegun::Wait(waiting) => waiting,
        _ => panic!("the second update should still wait"),
    };
    h.apply(id, first);
    assert_eq!(h.values[&value], "first");
    match h.manager.resume_update(waiting, &h.live) {
        UpdateBegun::Apply(work) => h.apply(id, work),
        _ => panic!("the second update should begin"),
    }
    assert_eq!(h.values[&value], "second");
}

#[test]
fn test_direct_update_waits_for_an_awaited_load() {
    let mut h = Harness::new(1);
    let id = h.id("key");
    h.insert(0, "key", b"value", "h_value");
    let mut fut = h.get_or_load("key");
    let update = ResourceUpdate::Modified("h_new".to_string());
    // Nobody waits for the load: the update is skipped.
    assert!(matches!(
        h.manager.begin_update(&id, SourceIndex::new(0), &update, &h.live),
        UpdateBegun::Nothing
    ));
    assert!(matches!(fut.poll(&mut h.manager, 1, None, &h.live), FuturePoll::Pending));
    let waiting = match h.manager.begin_update(&id, SourceIndex::new(0), &update, &h.live) {
        UpdateBegun::Wait(waiting) => waiting,
        _ => panic!("the update should wait"),
    };
    let value = h.wait(fut).expect("Resource should load for 'key'");
    assert_eq!(h.values[&value], "value");
    h.data_maps[0].borrow_mut().insert(id.index, (b"new".to_vec(), "h_new".to_string()));
    match h.manager.resume_update(waiting, &h.live) {
        UpdateBegun::Apply(work) => h.apply(id, work),
        _ => panic!("the update should begin"),
    }
    assert_eq!(h.values[&value], "new");
}

#[test]
fn test_direct_request_for_an_evicted_entry_is_made_anew() {
    let mut h = Harness::new(1);
    h.insert(0, "key", b"value", "h_value");
    let mut awaited = h.get_or_load("key");
    let mut delayed = h.get_or_load("key");
    let fut = h.get_or_load("key");
    assert!(matches!(awaited.poll(&mut h.manager, 1, None, &h.live), FuturePoll::Pending));
    let value = h.wait(fut).expect("Resource should load for 'key'");
    // The entry leaves the cache, since its resource is gone.
    h.drop_value(value);
    h.insert(0, "key", b"new_value", "h_new_value");
    // Even if the resource of the old entry were there again, only who waits already would get it.
    h.live.insert(value);
    let request = h.request("key");
    match delayed.poll(&mut h.manager, 2, None, &h.live) {
        FuturePoll::Reload(again) => assert_eq!(again, request),
        _ => panic!("the request should be made anew"),
    }
    assert!(matches!(awaited.poll(&mut h.manager, 1, None, &h.live), FuturePoll::Ready(Ok(v)) if v == value));
}

#[test]
fn test_direct_future_description() {
    let mut h = Harness::new(1);
    h.insert(0, "key", b"value", "h_value");
    let fut = h.get_or_load("key");
    assert_eq!(fut.debug_text(true, ""), "ResourceFuture { Delayed: <cache> }");
    assert_eq!(fut.debug_text(false, ""), "ResourceFuture { Delayed: <expired> }");
    let _ = h.wait(fut);
    let fut = h.get_or_load("key");
    assert_eq!(fut.debug_text(true, ""), "ResourceFuture { Immediate: Ok(<resource>) }");
    let failed = ResourceFuture::Immediate(Err(ResourceLoadError::from_error("oh".to_string())));
    assert_eq!(failed.debug_text(true, "E"), "ResourceFuture { Immediate: Err(E) }");
    assert_eq!(ResourceFuture::Complete.debug_text(true, ""), "ResourceFuture { Uninit: \"<uninit>\" }");
}

#[test]
fn test_direct_release_keeps_cached_entries() {
    let mut h = Harness::new(1);
    h.insert(0, "key", b"value", "h_value");
    let fut = h.get_or_load("key");
    let entry = match &fut {
        ResourceFuture::Delayed { entry, .. } => *entry,
        _ => panic!("the resource should be loading"),
    };
    h.manager.release(entry);
    h.wait(fut).expect("Resource should load for 'key'");
}
