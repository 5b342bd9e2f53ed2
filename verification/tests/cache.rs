use gtether::resource::id::{IdTable, ResourceId};
use gtether::resource::manager::cache::{Cache, CacheGet, ResourceLoadContext, UpdateAction, UpdateWork};
use gtether::resource::manager::dependency::{DependencyGraph, DependencyGraphLayer};
use gtether::resource::manager::future::{AdapterPoll, AdapterState, Fallback, GetOrLoad};
use gtether::resource::manager::group::{CacheGroup, CacheGroupUpdateResult};
use gtether::resource::manager::load::{
    CacheEntryTyped, EntryGetResult, LoadPriority, Replaced, ResourceLoadOperation, ResourceTaskData, SourceMetadata,
};
use gtether::resource::manager::source::{DataScan, ScanStep, Sources};
use gtether::resource::manager::task::{route, ResourceManagerWorkerPriorityConfig, TaskPriority, TaskQueue};
use gtether::resource::manager::update::{process_message, UpdateManager};
use gtether::resource::manager::{ResourceManager, ResourceManagerBuilder};
use gtether::resource::source::constant::ConstantResourceSource;
use gtether::resource::source::{
    BulkResourceUpdate, ResourceData, ResourceUpdate, SealedResourceDataSource, SourceIndex,
};
use gtether::resource::watcher::{ResourceWatcher, ResourceWatcherSender, UpdateMsg};
use gtether::resource::{ResKey, ResourceLoadError};
use gtether::util::table::{IdMap, IdSet};

fn key(name: &str, table: &mut IdTable) -> ResKey {
    ResKey::new(ResourceId::new(name, table), 1, 1)
}

fn set(keys: &[ResKey]) -> IdSet<ResKey> {
    let mut set = IdSet::new();
    for k in keys {
        set.insert(*k);
    }
    set
}

fn live(resources: &[u64]) -> IdSet<u64> {
    let mut set = IdSet::new();
    for r in resources {
        set.insert(*r);
    }
    set
}

fn loaded(k: ResKey, resource: u64, dependencies: &[ResKey]) -> ResourceTaskData {
    let mut layer = DependencyGraphLayer::new(k, vec![]);
    for d in dependencies {
        layer.insert(*d);
    }
    ResourceTaskData { resource, dependencies: layer }
}

fn sources(id: ResourceId, data: &'static [u8], hash: &str) -> Sources<ConstantResourceSource> {
    let source = ConstantResourceSource::builder().hashed_resource(id, data, hash.to_string()).build();
    Sources::new(vec![source], vec![ResourceWatcher::new(IdMap::new())])
}

#[test]
fn test_dependency_graph() {
    let mut table = IdTable::new();
    let (a, b, c, d) =
        (key("a", &mut table), key("b", &mut table), key("c", &mut table), key("d", &mut table));
    let mut graph = DependencyGraph::builder().add(&a, &set(&[b])).add(&b, &set(&[c])).build();
    assert!(graph.get(&d).is_none());
    let node = graph.get(&b).unwrap();
    assert_eq!(node.key(), b);
    assert!(!node.is_root() && !node.is_leaf());
    assert!(node.dependencies().contains(&c) && node.dependents().contains(&a));
    assert!(graph.get(&a).unwrap().is_root() != graph.get(&c).unwrap().is_root());
    assert!(graph.get(&a).unwrap().is_leaf() != graph.get(&c).unwrap().is_leaf());
    let up = graph.recursive_dependents(&c);
    assert!(up.contains(&a) && up.contains(&b) && up.len() == 2);
    let down = graph.recursive_dependencies(&a);
    assert!(down.contains(&c) && down.contains(&b) && down.len() == 2);
    assert!(graph.keys_for_id(&a.id).contains(&a));
    assert_eq!(graph.nodes_for_id(&b.id).len(), 1);
    assert_eq!(graph.keys(), vec![a, b]);

    graph.set_dependencies(&a, &set(&[d]));
    graph.set_dependencies(&a, &set(&[d]));
    assert!(!graph.recursive_dependents(&c).contains(&a));
    assert!(graph.recursive_dependents(&d).contains(&a));
    graph.add_dependency(&d, &c);
    assert!(graph.recursive_dependencies(&a).contains(&c));
    graph.clear_dependencies(&d);
    assert!(!graph.recursive_dependencies(&a).contains(&c));
}

#[test]
fn test_dependency_graph_keeps_what_others_depend_on() {
    let mut table = IdTable::new();
    let (a, b, c) = (key("a", &mut table), key("b", &mut table), key("c", &mut table));
    let mut graph = DependencyGraph::builder().add(&a, &set(&[b])).add(&b, &set(&[c])).build();
    graph.set_dependencies(&b, &set(&[]));
    assert!(graph.get(&b).unwrap().is_leaf());
    assert!(graph.keys_for_id(&b.id).contains(&b));
    assert_eq!(graph.nodes_for_id(&b.id).len(), 1);
    assert!(graph.keys_for_id(&c.id).is_empty());
    graph.clear_dependencies(&a);
    assert!(graph.keys_for_id(&a.id).is_empty());
    assert!(graph.keys_for_id(&b.id).is_empty());
    assert!(graph.get(&a).is_none());
}

#[test]
fn test_nodes_for_id_lists_each_node_once() {
    let mut table = IdTable::new();
    let (a, b, c) = (key("a", &mut table), key("b", &mut table), key("c", &mut table));
    let mut graph = DependencyGraph::builder().add(&a, &set(&[b])).add(&b, &set(&[c])).build();
    graph.clear_dependencies(&b);
    assert!(graph.get(&b).is_some());
    let nodes = graph.nodes_for_id(&b.id);
    assert_eq!(nodes.len(), 1);
    assert_eq!(nodes[0].key(), b);
}

#[test]
fn test_dependency_layer() {
    let mut table = IdTable::new();
    let (a, b, c) = (key("a", &mut table), key("b", &mut table), key("c", &mut table));
    let mut graph = DependencyGraph::new();
    graph.add_dependency(&a, &c);
    let mut layer = DependencyGraphLayer::new(a, vec![c]);
    assert_eq!((layer.key(), layer.parents().len()), (a, 1));
    layer.insert(b);
    layer.apply(&mut graph);
    let now = graph.get(&a).unwrap().dependencies();
    assert!(now.contains(&b) && !now.contains(&c));
}

#[test]
fn test_cache_load() {
    let mut table = IdTable::new();
    let a = key("a", &mut table);
    let b = key("b", &mut table);
    let mut cache = Cache::new();
    let mut graph = DependencyGraph::new();
    assert!(matches!(cache.get_or_load(&a, false, 100, None, &live(&[]), &mut graph), CacheGet::MustLoad));
    assert!(cache.has_group(&a.id));
    assert!(cache.start_load_task(&a, false, 7, 100, None, &mut graph).is_none());
    assert!(!cache.nobody_waits(7));
    assert!(matches!(cache.get_or_load(&a, false, 101, None, &live(&[]), &mut graph), CacheGet::Waiting));
    assert_eq!(cache.wake(7, &live(&[100, 101])), vec![100, 101]);
    let polled = Some(Ok(loaded(a, 55, &[b])));
    assert!(matches!(cache.poll_load(&a, polled, &live(&[55]), &mut graph), CacheGet::Cached(Ok(55))));
    assert!(graph.recursive_dependents(&b).contains(&a));
    assert!(matches!(
        cache.get_or_load(&a, false, 102, None, &live(&[55]), &mut graph),
        CacheGet::Cached(Ok(55))
    ));
    assert!(matches!(cache.get_or_load(&a, false, 102, None, &live(&[]), &mut graph), CacheGet::MustLoad));
    assert_eq!(cache.group_len(&a.id), 1);
    cache.clear();
    assert!(!cache.has_group(&a.id));
}

#[test]
fn test_cache_remembers_failures() {
    let mut table = IdTable::new();
    let a = key("a", &mut table);
    let mut cache = Cache::new();
    let mut graph = DependencyGraph::new();
    let first = Some(Err(ResourceLoadError::NotFound(a.id)));
    assert!(matches!(
        cache.start_load_task(&a, false, 7, 100, first, &mut graph),
        Some(Err(ResourceLoadError::NotFound(_)))
    ));
    assert!(matches!(
        cache.get_or_load(&a, false, 101, None, &live(&[]), &mut graph),
        CacheGet::Cached(Err(ResourceLoadError::NotFound(_)))
    ));
    assert!(matches!(cache.get_or_load(&a, true, 101, None, &live(&[]), &mut graph), CacheGet::MustLoad));
}

#[test]
fn test_cyclic_load() {
    let mut table = IdTable::new();
    let (a, b, c) = (key("a", &mut table), key("b", &mut table), key("c", &mut table));
    let mut ctx = ResourceLoadContext::new(b, TaskPriority::Immediate(0), vec![a]);
    assert_eq!((ctx.key(), ctx.priority()), (b, TaskPriority::Immediate(0)));
    for k in [a, b] {
        match ctx.get_with_loader(&k) {
            Err(ResourceLoadError::CyclicLoad { parents, key }) => {
                assert_eq!(key, k);
                assert!(parents.contains(&a));
            }
            _ => panic!("the load should be cyclic"),
        }
    }
    let lineage = ctx.get_with_loader(&c).unwrap();
    assert!(lineage.contains(&a) && lineage.contains(&b));
    ctx.note_result(c, &Ok(9));
    ctx.add_dependency(a);
    let data = ctx.into_data(4);
    assert_eq!(data.resource, 4);
    let mut graph = DependencyGraph::new();
    data.dependencies.apply(&mut graph);
    assert!(graph.recursive_dependencies(&b).contains(&c));
}

/// A cache with one resource from the given source.
fn cache_with(k: ResKey, resource: u64, hash: &str, idx: usize, graph: &mut DependencyGraph) -> Cache {
    let mut cache = Cache::new();
    cache.init_group(&k.id);
    cache.start_load_task(&k, false, 1, 100, Some(Ok(loaded(k, resource, &[]))), graph);
    cache.update_metadata(&k.id, hash.to_string(), SourceIndex::new(idx));
    cache
}

#[test]
fn test_update_decisions() {
    let mut table = IdTable::new();
    let a = key("a", &mut table);
    let mut graph = DependencyGraph::new();
    let mut next: u64 = 50;
    let mut cache = cache_with(a, 5, "h", 1, &mut graph);
    let at = |i: usize| SourceIndex::new(i);
    let modified = |h: &str| ResourceUpdate::Modified(h.to_string());

    let r = cache.start_update(&a.id, modified("h"), &at(1), None, &mut next, &live(&[5]));
    assert!(matches!(r, CacheGroupUpdateResult::Skipped));
    let r = cache.start_update(&a.id, modified("n"), &at(2), None, &mut next, &live(&[5]));
    assert!(matches!(r, CacheGroupUpdateResult::Skipped));
    let r = cache.start_update(&a.id, ResourceUpdate::Removed, &at(1), None, &mut next, &live(&[5]));
    assert!(matches!(r, CacheGroupUpdateResult::Skipped));
    let r = cache.start_update(
        &a.id,
        ResourceUpdate::MovedSourceIndex(at(1)),
        &at(3),
        None,
        &mut next,
        &live(&[5]),
    );
    assert!(matches!(r, CacheGroupUpdateResult::Moved));
    let r = cache.start_update(&a.id, modified("n"), &at(2), None, &mut next, &live(&[5]));
    let started = match r {
        CacheGroupUpdateResult::Updated(started) => started,
        _ => panic!("the update should start"),
    };
    assert_eq!(started.len(), 1);
    assert_eq!(started[0].key, a);
    assert_eq!(started[0].source_idx, at(2));
    assert!(matches!(started[0].replaced, Replaced::Nothing));
    assert_eq!(next, 51);
    let found = SealedResourceDataSource { hash: "back".to_string(), idx: at(4) };
    let r = cache.start_update(&a.id, ResourceUpdate::Removed, &at(2), Some(found), &mut next, &live(&[5]));
    assert!(matches!(r, CacheGroupUpdateResult::Updated(list) if list.len() == 1
        && matches!(list[0].replaced, Replaced::Cancelled(_))));
}

#[test]
fn test_update_of_a_gone_resource_is_dropped() {
    let mut table = IdTable::new();
    let a = key("a", &mut table);
    let mut graph = DependencyGraph::new();
    let mut next: u64 = 50;
    let mut cache = cache_with(a, 5, "h", 0, &mut graph);
    let update = ResourceUpdate::Modified("n".to_string());
    let r = cache.start_update(&a.id, update, &SourceIndex::new(0), None, &mut next, &live(&[]));
    assert!(matches!(r, CacheGroupUpdateResult::Updated(list) if list.is_empty()));
    assert_eq!(cache.group_len(&a.id), 0);
}

#[test]
fn test_dependent_update_of_a_group() {
    let mut table = IdTable::new();
    let k = key("key", &mut table);
    let mut group = CacheGroup::new();
    let mut next: u64 = 7;
    assert!(matches!(group.start_dependent_update(&k, &mut next, &live(&[])), CacheGroupUpdateResult::Skipped));
    group.insert(CacheEntryTyped::from_load_task(k, true, 1));
    match group.start_dependent_update(&k, &mut next, &live(&[])) {
        CacheGroupUpdateResult::Updated(started) => {
            assert_eq!(started.len(), 1);
            assert_eq!(started[0].task, 7);
            assert_eq!(started[0].replaced, Replaced::Dropped(1));
        },
        _ => panic!("the entry should be updated"),
    }
    assert_eq!(next, 8);
    group.remove(&k);
    // A type of loader stays known after its entries are gone.
    assert!(matches!(group.start_dependent_update(&k, &mut next, &live(&[])),
        CacheGroupUpdateResult::Updated(started) if started.is_empty()));
    assert_eq!(next, 8);
}

#[test]
fn test_update_is_applied() {
    let mut table = IdTable::new();
    let a = key("a", &mut table);
    let b = key("b", &mut table);
    let mut graph = DependencyGraph::new();
    let mut sources = sources(a.id, b"x", "n");
    let mut next: u64 = 50;
    let mut cache = cache_with(a, 5, "h", 0, &mut graph);
    let update = ResourceUpdate::Modified("n".to_string());
    let r = cache.start_update(&a.id, update, &SourceIndex::new(0), None, &mut next, &live(&[5]));
    let started = match r {
        CacheGroupUpdateResult::Updated(started) => started,
        _ => panic!("the update should start"),
    };
    let work = UpdateWork::new(&started[0]);
    let action = cache.update_loaded(&work, Ok(loaded(a, 6, &[b])), &live(&[5]), &mut graph, &mut sources);
    assert_eq!(action, UpdateAction::Apply(5));
    assert!(graph.recursive_dependents(&b).contains(&a));
    cache.finish_update(&work, 5);
    assert!(matches!(
        cache.get_or_load(&a, false, 1, None, &live(&[5]), &mut graph),
        CacheGet::Cached(Ok(5))
    ));
}

#[test]
fn test_failed_update_keeps_the_resource() {
    let mut table = IdTable::new();
    let a = key("a", &mut table);
    let mut graph = DependencyGraph::new();
    let mut sources = sources(a.id, b"x", "n");
    let mut next: u64 = 50;
    let mut cache = cache_with(a, 5, "h", 0, &mut graph);
    let update = ResourceUpdate::Modified("n".to_string());
    let r = cache.start_update(&a.id, update, &SourceIndex::new(0), None, &mut next, &live(&[5]));
    let started = match r {
        CacheGroupUpdateResult::Updated(started) => started,
        _ => panic!("the update should start"),
    };
    let work = UpdateWork::new(&started[0]);
    let failure = Err(ResourceLoadError::from_error("bad".to_string()));
    let action = cache.update_loaded(&work, failure, &live(&[5]), &mut graph, &mut sources);
    assert_eq!(action, UpdateAction::Done);
    assert!(matches!(
        cache.get_or_load(&a, false, 1, None, &live(&[5]), &mut graph),
        CacheGet::Cached(Ok(5))
    ));
}

#[test]
fn test_messages_update_dependents() {
    let mut table = IdTable::new();
    let (a, b) = (key("a", &mut table), key("b", &mut table));
    let mut graph = DependencyGraph::new();
    let mut cache = cache_with(a, 5, "h", 0, &mut graph);
    cache.init_group(&b.id);
    cache.start_load_task(&b, false, 2, 100, Some(Ok(loaded(b, 6, &[a]))), &mut graph);
    let sources = sources(a.id, b"x", "n");
    let msg = UpdateMsg {
        src_idx: SourceIndex::new(0),
        bulk_update: BulkResourceUpdate::single(a.id, ResourceUpdate::Modified("n".to_string())),
    };
    let (started, next) = process_message(msg, &mut cache, &graph, &sources, 10, &live(&[5, 6]));
    let keys: Vec<ResKey> = started.iter().map(|s| s.key).collect();
    assert_eq!(keys, vec![a, b]);
    assert_eq!(next, 12);
    let msg = UpdateMsg {
        src_idx: SourceIndex::new(0),
        bulk_update: BulkResourceUpdate::single(a.id, ResourceUpdate::Modified("n".to_string())),
    };
    let (started, next) = process_message(msg, &mut cache, &graph, &sources, 12, &live(&[5, 6]));
    assert!(started.is_empty());
    assert_eq!(next, 12);
}

#[test]
fn test_data_for_load() {
    let mut table = IdTable::new();
    let a = key("a", &mut table);
    let mut cache = Cache::new();
    cache.init_group(&a.id);
    let mut sources = sources(a.id, b"x", "n");
    let found = sources.find_data(&a.id);
    let data = cache.data_for_load(&mut sources, &a.id, false, ResourceLoadOperation::Load, found);
    assert_eq!(data.ok(), Some(b"x".to_vec()));
    assert!(sources.watcher(0).is_watched(&a.id));
    let missing = ResourceId::new("missing", &mut table);
    let found = sources.find_data(&missing);
    let data = cache.data_for_load(&mut sources, &missing, false, ResourceLoadOperation::Load, found);
    assert!(matches!(data, Err(ResourceLoadError::NotFound(id)) if id == missing));
    assert_eq!(sources.find_hash(&a.id).unwrap().idx, SourceIndex::new(0));
    assert!(sources.load_at(&a.id, &SourceIndex::new(1)).is_none());
    sources.unwatch_all(&a.id);
    assert!(!sources.watcher(0).is_watched(&a.id));
}

#[test]
fn test_data_scan() {
    let mut table = IdTable::new();
    let a = key("a", &mut table);
    let mut scan = DataScan::new(3);
    assert!(matches!(scan.start(), ScanStep::Ask(0)));
    assert!(matches!(scan.answer(Err(ResourceLoadError::NotFound(a.id))), ScanStep::Ask(1)));
    let step = scan.answer(Ok(ResourceData::new(vec![1], "h".to_string())));
    assert!(matches!(step, ScanStep::Done(Some(Ok(d))) if d.source.idx == SourceIndex::new(1)));
    let mut scan = DataScan::new(2);
    let step = scan.answer(Err(ResourceLoadError::from_error("e".to_string())));
    assert!(matches!(step, ScanStep::Done(Some(Err(ResourceLoadError::ReadError(_))))));
    assert!(matches!(DataScan::new(0).start(), ScanStep::Done(None)));
}

#[test]
fn test_metadata() {
    let metadata = SourceMetadata { hash: Some("h".to_string()), source_idx: SourceIndex::new(1) };
    assert!(!metadata.valid_for_update(&"h".to_string(), &SourceIndex::new(0)));
    assert!(metadata.valid_for_update(&"n".to_string(), &SourceIndex::new(1)));
    assert!(!metadata.valid_for_update(&"n".to_string(), &SourceIndex::new(2)));
    assert!(SourceMetadata::default().valid_for_update(&"n".to_string(), &SourceIndex::max()));
}

#[test]
fn test_answers_and_retries() {
    let failed = || EntryGetResult::Failed(ResourceLoadError::from_error("e".to_string()));
    assert!(matches!(EntryGetResult::Found(3).try_result(true), Some(Ok(3))));
    assert!(matches!(failed().try_result(false), Some(Err(_))));
    assert!(failed().try_result(true).is_none());
    assert!(EntryGetResult::Expired.try_result(false).is_none());
}

#[test]
fn test_priorities() {
    assert!(TaskPriority::Immediate(-5) > TaskPriority::Delayed(9));
    assert!(TaskPriority::Delayed(-5) > TaskPriority::Update);
    assert!(TaskPriority::Immediate(2) > TaskPriority::Immediate(1));
    assert_eq!(TaskPriority::from(LoadPriority::Delayed(4)), TaskPriority::Delayed(4));
    assert_eq!(LoadPriority::default(), LoadPriority::immediate());
    assert_eq!(LoadPriority::Delayed(-3).to_text(), "Delayed(-3)");
    assert_eq!(route(TaskPriority::from(LoadPriority::delayed())), TaskQueue::Delayed(0));
    assert_eq!(route(TaskPriority::Update), TaskQueue::Update);
    assert!(ResourceManagerWorkerPriorityConfig::from(3).check());
    assert!(!ResourceManagerWorkerPriorityConfig { immediate: 1, delayed: 2, update: 0 }.check());
}

#[test]
fn test_requests() {
    let mut cached = GetOrLoad::from_get(CacheGet::Cached(Ok(4))).unwrap();
    assert!(matches!(cached.poll(None), Some(Ok(4))));
    assert!(cached.is_terminated());
    assert!(GetOrLoad::from_get(CacheGet::MustLoad).is_none());
    let mut loading = GetOrLoad::from_started(None);
    assert!(loading.poll(None).is_none());
    assert!(!loading.is_terminated());
    assert!(matches!(loading.poll(Some(Ok(8))), Some(Ok(8))));
}

#[test]
fn test_request_descriptions() {
    let text = |request: GetOrLoad| request.debug_text("key", "E");
    assert_eq!(text(GetOrLoad::Cached(Ok(1))), "GetOrLoad::Cached(Ok(key))");
    let error = ResourceLoadError::from_error("oh".to_string());
    assert_eq!(text(GetOrLoad::Cached(Err(error))), "GetOrLoad::Cached(Err(E))");
    assert_eq!(text(GetOrLoad::Loading), "GetOrLoad::Loading(<load-future>)");
    assert_eq!(text(GetOrLoad::Updating), "GetOrLoad::Updating(<update-future>)");
    assert_eq!(text(GetOrLoad::Complete), "GetOrLoad::Complete");
    let mut adapter: AdapterState<u8, u8, u8> = AdapterState::new(1, 2);
    assert_eq!(adapter.debug_text("X"), "AdapterState::Primary(X)");
    let error = ResourceLoadError::NotFound(ResourceId { index: 0 });
    assert!(matches!(adapter.poll(Some(Err(error))), AdapterPoll::Fallback(2)));
    assert_eq!(adapter.debug_text("X"), "AdapterState::Complete");
    adapter.fall_back(3);
    assert_eq!(adapter.debug_text("X"), "AdapterState::Secondary(X)");
}

#[test]
fn test_fallbacks() {
    let mut table = IdTable::new();
    let a = key("a", &mut table);
    let b = ResourceId::new("b", &mut table);
    let mut adapter: AdapterState<u8, u8, &str> = AdapterState::new(1, "data");
    assert!(matches!(adapter.poll(None), AdapterPoll::Pending));
    let missing = Some(Err(ResourceLoadError::NotFound(a.id)));
    assert!(matches!(adapter.poll(missing), AdapterPoll::Fallback("data")));
    adapter.fall_back(2);
    assert!(!adapter.is_terminated());
    let missing = Some(Err(ResourceLoadError::NotFound(a.id)));
    assert!(matches!(adapter.poll(missing), AdapterPoll::Ready(Err(_))));
    assert!(adapter.is_terminated());
    let mut adapter: AdapterState<u8, u8, &str> = AdapterState::new(1, "data");
    let failed = Some(Err(ResourceLoadError::from_error("e".to_string())));
    assert!(matches!(adapter.poll(failed), AdapterPoll::Ready(Err(ResourceLoadError::ReadError(_)))));

    let other = Fallback::or_get(a, b);
    assert_eq!((other.key(), other.force_retry()), (ResKey::new(b, 1, 1), false));
    assert_eq!(Fallback::or_get_with_loader(b, 5, 6).key(), ResKey::new(b, 5, 6));
    for fallback in [Fallback::or_default(a), Fallback::or_loader_default(a), Fallback::or_default_with(a, 1)] {
        assert_eq!((fallback.key(), fallback.force_retry()), (a, true));
    }
}

#[test]
fn test_manager_builder() {
    let mut table = IdTable::new();
    let a = key("a", &mut table);
    let source = || ConstantResourceSource::builder().resource(a.id, b"x").build();
    let incomplete = ResourceManager::builder().source(source(), ResourceWatcher::new(IdMap::new()));
    assert!(!incomplete.is_complete());
    let builder = incomplete
        .source(source(), ResourceWatcher::new(IdMap::new()))
        .worker_config(ResourceManagerWorkerPriorityConfig::from(0));
    assert!(builder.is_complete());
    let mut out = Vec::new();
    let mut manager = builder.build(ResourceWatcherSender { channel: 2 }, &mut out);
    assert_eq!(manager.sources.len(), 2);
    assert_eq!(manager.sources.watcher(1).source_index(), Some(SourceIndex::new(1)));
    assert!(manager.dependencies().keys().is_empty());
    let (answer, queue) = manager.get_with_loader(&a, 1, None, &live(&[]));
    assert!(matches!(answer, CacheGet::MustLoad));
    assert_eq!(queue, TaskQueue::Immediate(0));
    let (_, queue) = manager.get_with_loader_priority(&a, LoadPriority::Delayed(3), 1, None, &live(&[]));
    assert_eq!(queue, TaskQueue::Delayed(3));
    assert!(manager.stop());
    assert!(!manager.stop());
    assert!(!manager.cache.has_group(&a.id));
    let empty: ResourceManagerBuilder<ConstantResourceSource> = ResourceManagerBuilder::new();
    assert!(!empty.is_complete());
}

#[test]
fn test_update_manager() {
    let mut manager = UpdateManager::new();
    manager.start();
    assert!(manager.stop());
    assert!(!manager.stop());
}
