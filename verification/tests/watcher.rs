use gtether::resource::id::{IdTable, ResourceId};
use gtether::resource::source::{BulkResourceUpdate, ResourceUpdate, SourceIndex};
use gtether::resource::watcher::{Outgoing, ResourceWatcher, ResourceWatcherConfig, ResourceWatcherSender};
use gtether::util::table::IdMap;

type Updates = Vec<(SourceIndex, Vec<(ResourceId, ResourceUpdate)>)>;

/// A watcher, and children that are attached to it or not.
struct Harness {
    table: IdTable,
    watcher: ResourceWatcher,
    children: Vec<Option<ResourceWatcher>>,
    order: Vec<usize>,
    out: Vec<Outgoing>,
}

fn at(indices: &[usize]) -> SourceIndex {
    SourceIndex::from_indices(indices)
}

impl Harness {
    fn new(child_count: usize) -> Self {
        let mut harness = Harness {
            table: IdTable::new(),
            watcher: ResourceWatcher::new(IdMap::new()),
            children: Vec::new(),
            order: Vec::new(),
            out: Vec::new(),
        };
        harness.create_children(child_count);
        harness
    }

    fn id(&mut self, text: &str) -> ResourceId {
        ResourceId::new(text, &mut self.table)
    }

    fn create_children(&mut self, count: usize) {
        let id = self.id("resource-a");
        for _ in 0..count {
            let mut hashes = IdMap::new();
            hashes.insert(id, format!("hash-{}", self.children.len()));
            self.children.push(Some(ResourceWatcher::new(hashes)));
        }
    }

    fn configure(&mut self, src_idx: Option<SourceIndex>) {
        if let Some(src_idx) = src_idx {
            let sender = ResourceWatcherSender { channel: 5 };
            self.watcher.configure(ResourceWatcherConfig { src_idx, sender }, &mut self.out);
        }
    }

    fn push(&mut self, child: usize) {
        let watcher = self.children[child].take().unwrap();
        self.watcher.push_child(watcher, &mut self.out);
        self.order.push(child);
    }

    fn insert(&mut self, child: usize, place: usize) {
        let watcher = self.children[child].take().unwrap();
        self.watcher.insert_child(place, watcher, &mut self.out);
        self.order.insert(place, child);
    }

    fn remove(&mut self, place: usize) {
        let watcher = self.watcher.remove_child(place, &mut self.out);
        let child = self.order.remove(place);
        self.children[child] = Some(watcher);
    }

    fn add_all_children(&mut self) {
        for child in 0..self.children.len() {
            self.push(child);
        }
    }

    fn child(&self, child: usize) -> &ResourceWatcher {
        match &self.children[child] {
            Some(watcher) => watcher,
            None => self.watcher.child(self.order.iter().position(|c| *c == child).unwrap()),
        }
    }

    fn drain_updates(&mut self) -> Updates {
        std::mem::take(&mut self.out)
            .into_iter()
            .map(|outgoing| {
                assert_eq!(outgoing.sender, ResourceWatcherSender { channel: 5 });
                let updates = &outgoing.msg.bulk_update.updates;
                let list = (0..updates.len())
                    .map(|i| (*updates.key_at(i), updates.value_at(i).clone()))
                    .collect();
                (outgoing.msg.src_idx, list)
            })
            .collect()
    }

    fn assert_position(&self, child: usize, expected: Option<&[usize]>) {
        assert_eq!(self.child(child).source_index(), expected.map(at));
    }
}

fn added(hash: &str) -> ResourceUpdate {
    ResourceUpdate::Added(hash.to_string())
}

fn moved(from: &[usize]) -> ResourceUpdate {
    ResourceUpdate::MovedSourceIndex(at(from))
}

fn check_push(
    child_count: usize,
    push_before: bool,
    src_idx: Option<SourceIndex>,
    expected_updates: Vec<(SourceIndex, ResourceUpdate)>,
) {
    let mut harness = Harness::new(child_count);
    let watch_id = harness.id("resource-a");
    if push_before {
        harness.add_all_children();
        harness.watcher.watch(watch_id, None);
        harness.configure(src_idx.clone());
    } else {
        harness.watcher.watch(watch_id, None);
        harness.configure(src_idx.clone());
        harness.add_all_children();
    }
    assert_eq!(harness.watcher.source_index(), src_idx);
    assert!(harness.watcher.is_watched(&watch_id));
    for child in 0..child_count {
        match &src_idx {
            Some(_) => harness.assert_position(child, Some(&[0, child])),
            None => harness.assert_position(child, None),
        }
        assert!(harness.child(child).is_watched(&watch_id));
    }
    let expected: Updates =
        expected_updates.into_iter().map(|(idx, update)| (idx, vec![(watch_id, update)])).collect();
    assert_eq!(harness.drain_updates(), expected);
}

#[test]
fn test_push_after_unconfigured() {
    check_push(1, false, None, vec![]);
}

#[test]
fn test_push_before_unconfigured() {
    check_push(1, true, None, vec![]);
}

#[test]
fn test_push_one_after_configure() {
    check_push(1, false, Some(SourceIndex::from(0)), vec![(at(&[0, 0]), added("hash-0"))]);
}

#[test]
fn test_push_one_before_configure() {
    check_push(1, true, Some(SourceIndex::from(0)), vec![(at(&[0, 0]), added("hash-0"))]);
}

#[test]
fn test_push_many_after_configure() {
    check_push(
        3,
        false,
        Some(SourceIndex::from(0)),
        vec![(at(&[0, 0]), added("hash-0")), (at(&[0, 1]), added("hash-1")), (at(&[0, 2]), added("hash-2"))],
    );
}

#[test]
fn test_push_many_before_configure() {
    check_push(
        3,
        true,
        Some(SourceIndex::from(0)),
        vec![(at(&[0, 0]), added("hash-0")), (at(&[0, 1]), added("hash-1")), (at(&[0, 2]), added("hash-2"))],
    );
}

fn check_insert(
    child_count: usize,
    insert_before: bool,
    src_idx: Option<SourceIndex>,
    insert_indices: Vec<(usize, usize)>,
    expected_places: Vec<Option<usize>>,
    expected_updates: Vec<(SourceIndex, ResourceUpdate)>,
) {
    let mut harness = Harness::new(child_count);
    let watch_id = harness.id("resource-a");
    if insert_before {
        for (child, place) in insert_indices {
            harness.insert(child, place);
        }
        harness.watcher.watch(watch_id, None);
        harness.configure(src_idx.clone());
    } else {
        harness.watcher.watch(watch_id, None);
        harness.configure(src_idx.clone());
        for (child, place) in insert_indices {
            harness.insert(child, place);
        }
    }
    assert_eq!(harness.watcher.source_index(), src_idx);
    assert!(harness.watcher.is_watched(&watch_id));
    for (child, place) in expected_places.into_iter().enumerate() {
        match place {
            Some(place) => harness.assert_position(child, Some(&[0, place])),
            None => harness.assert_position(child, None),
        }
        assert!(harness.child(child).is_watched(&watch_id));
    }
    let expected: Updates =
        expected_updates.into_iter().map(|(idx, update)| (idx, vec![(watch_id, update)])).collect();
    assert_eq!(harness.drain_updates(), expected);
}

#[test]
fn test_insert_after_unconfigured() {
    check_insert(1, false, None, vec![(0, 0)], vec![None], vec![]);
}

#[test]
fn test_insert_before_unconfigured() {
    check_insert(1, true, None, vec![(0, 0)], vec![None], vec![]);
}

#[test]
fn test_insert_one_after_configure() {
    check_insert(
        1,
        false,
        Some(SourceIndex::from(0)),
        vec![(0, 0)],
        vec![Some(0)],
        vec![(at(&[0, 0]), added("hash-0"))],
    );
}

#[test]
fn test_insert_one_before_configure() {
    check_insert(
        1,
        true,
        Some(SourceIndex::from(0)),
        vec![(0, 0)],
        vec![Some(0)],
        vec![(at(&[0, 0]), added("hash-0"))],
    );
}

#[test]
fn test_insert_many_after_configure() {
    check_insert(
        4,
        false,
        Some(SourceIndex::from(0)),
        vec![(0, 0), (1, 1), (2, 0), (3, 2)],
        vec![Some(1), Some(3), Some(0), Some(2)],
        vec![
            (at(&[0, 0]), added("hash-0")),
            (at(&[0, 1]), added("hash-1")),
            (at(&[0, 0]), added("hash-2")),
            (at(&[0, 1]), moved(&[0, 0])),
            (at(&[0, 2]), moved(&[0, 1])),
            (at(&[0, 2]), added("hash-3")),
            (at(&[0, 3]), moved(&[0, 2])),
        ],
    );
}

#[test]
fn test_insert_many_before_configure() {
    check_insert(
        4,
        true,
        Some(SourceIndex::from(0)),
        vec![(0, 0), (1, 1), (2, 0), (3, 2)],
        vec![Some(1), Some(3), Some(0), Some(2)],
        vec![
            (at(&[0, 0]), added("hash-2")),
            (at(&[0, 1]), added("hash-0")),
            (at(&[0, 2]), added("hash-3")),
            (at(&[0, 3]), added("hash-1")),
        ],
    );
}

fn check_remove(
    src_idx: Option<SourceIndex>,
    remove_indices: Vec<usize>,
    expected_places: Vec<Option<usize>>,
    expected_watches: Vec<bool>,
    expected_updates: Vec<(SourceIndex, ResourceUpdate)>,
) {
    let mut harness = Harness::new(3);
    let watch_id = harness.id("resource-a");
    harness.configure(src_idx.clone());
    harness.watcher.watch(watch_id, None);
    harness.add_all_children();
    harness.drain_updates();
    for place in remove_indices {
        harness.remove(place);
    }
    assert_eq!(harness.watcher.source_index(), src_idx);
    assert!(harness.watcher.is_watched(&watch_id));
    for (child, place) in expected_places.into_iter().enumerate() {
        match place {
            Some(place) => harness.assert_position(child, Some(&[0, place])),
            None => harness.assert_position(child, None),
        }
        assert_eq!(harness.child(child).is_watched(&watch_id), expected_watches[child]);
    }
    let expected: Updates =
        expected_updates.into_iter().map(|(idx, update)| (idx, vec![(watch_id, update)])).collect();
    assert_eq!(harness.drain_updates(), expected);
}

#[test]
fn test_remove_unconfigured() {
    check_remove(None, vec![1], vec![None, None, None], vec![true, false, true], vec![]);
}

#[test]
fn test_remove_first() {
    check_remove(
        Some(SourceIndex::from(0)),
        vec![0],
        vec![None, Some(0), Some(1)],
        vec![false, true, true],
        vec![
            (at(&[0, 0]), ResourceUpdate::Removed),
            (at(&[0, 0]), moved(&[0, 1])),
            (at(&[0, 1]), moved(&[0, 2])),
        ],
    );
}

#[test]
fn test_remove_last() {
    check_remove(
        Some(SourceIndex::from(0)),
        vec![2],
        vec![Some(0), Some(1), None],
        vec![true, true, false],
        vec![(at(&[0, 2]), ResourceUpdate::Removed)],
    );
}

#[test]
fn test_remove_many() {
    check_remove(
        Some(SourceIndex::from(0)),
        vec![0, 1],
        vec![None, Some(0), None],
        vec![false, true, false],
        vec![
            (at(&[0, 0]), ResourceUpdate::Removed),
            (at(&[0, 0]), moved(&[0, 1])),
            (at(&[0, 1]), moved(&[0, 2])),
            (at(&[0, 1]), ResourceUpdate::Removed),
        ],
    );
}

/// A harness with three children, of which the first ones watch what is watched up to them.
fn partial_harness() -> Harness {
    let mut harness = Harness::new(3);
    harness.add_all_children();
    harness.configure(Some(SourceIndex::from(0)));
    for place in 0..3 {
        let id = harness.id(&format!("resource-{place}"));
        harness.watcher.watch(id, Some(SourceIndex::from(place)));
    }
    harness
}

fn check_partial(harness: &mut Harness, expected: Vec<(Option<usize>, Option<[bool; 3]>)>) {
    let ids = [harness.id("resource-0"), harness.id("resource-1"), harness.id("resource-2")];
    assert_eq!(harness.children.len(), expected.len());
    for (child, (place, watches)) in expected.into_iter().enumerate() {
        match place {
            Some(place) => harness.assert_position(child, Some(&[0, place])),
            None => harness.assert_position(child, None),
        }
        if let Some(watches) = watches {
            for i in 0..3 {
                assert_eq!(harness.child(child).is_watched(&ids[i]), watches[i]);
            }
        }
    }
}

#[test]
fn test_partial_watch_unmodified() {
    let mut harness = partial_harness();
    check_partial(
        &mut harness,
        vec![
            (Some(0), Some([true, true, true])),
            (Some(1), Some([false, true, true])),
            (Some(2), Some([false, false, true])),
        ],
    );
}

#[test]
fn test_partial_watch_push() {
    let mut harness = partial_harness();
    harness.create_children(1);
    harness.push(3);
    check_partial(
        &mut harness,
        vec![
            (Some(0), Some([true, true, true])),
            (Some(1), Some([false, true, true])),
            (Some(2), Some([false, false, true])),
            (Some(3), Some([false, false, false])),
        ],
    );
}

#[test]
fn test_partial_watch_insert_last() {
    let mut harness = partial_harness();
    harness.create_children(1);
    harness.insert(3, 3);
    check_partial(
        &mut harness,
        vec![
            (Some(0), Some([true, true, true])),
            (Some(1), Some([false, true, true])),
            (Some(2), Some([false, false, true])),
            (Some(3), Some([false, false, false])),
        ],
    );
}

#[test]
fn test_partial_watch_insert_middle() {
    let mut harness = partial_harness();
    harness.create_children(2);
    harness.insert(3, 1);
    harness.insert(4, 3);
    check_partial(
        &mut harness,
        vec![
            (Some(0), Some([true, true, true])),
            (Some(2), Some([false, true, true])),
            (Some(4), Some([false, false, true])),
            (Some(1), Some([false, true, true])),
            (Some(3), Some([false, false, true])),
        ],
    );
}

#[test]
fn test_partial_watch_remove_last() {
    let mut harness = partial_harness();
    harness.remove(2);
    check_partial(
        &mut harness,
        vec![(Some(0), Some([true, true, true])), (Some(1), Some([false, true, true])), (None, None)],
    );
}

#[test]
fn test_partial_watch_remove_first() {
    let mut harness = partial_harness();
    harness.remove(0);
    check_partial(
        &mut harness,
        vec![(None, None), (Some(0), Some([false, true, true])), (Some(1), Some([false, false, true]))],
    );
}

#[test]
fn test_unconfigure_is_silent_without_watches() {
    let mut harness = Harness::new(2);
    harness.add_all_children();
    harness.configure(Some(SourceIndex::from(3)));
    assert!(harness.drain_updates().is_empty());
    harness.watcher.unconfigure(&mut harness.out);
    assert!(harness.drain_updates().is_empty());
    assert_eq!(harness.watcher.source_index(), None);
    assert_eq!(harness.watcher.child(1).source_index(), None);
}

#[test]
fn test_notify_names_the_position() {
    let mut harness = Harness::new(1);
    let id = harness.id("resource-a");
    harness.watcher.watch(id, None);
    harness.watcher.notify_update(BulkResourceUpdate::single(id, added("x")), &mut harness.out);
    assert!(harness.drain_updates().is_empty());
    harness.configure(Some(SourceIndex::from(4)));
    harness.add_all_children();
    harness.drain_updates();
    let mut out = Vec::new();
    harness.watcher.child(0).notify_update(BulkResourceUpdate::single(id, added("x")), &mut out);
    harness.out = out;
    assert_eq!(harness.drain_updates(), vec![(at(&[4, 0]), vec![(id, added("x"))])]);
}

#[test]
fn test_notify_keeps_the_time() {
    let mut harness = Harness::new(0);
    let id = harness.id("resource-a");
    harness.configure(Some(SourceIndex::from(4)));
    let mut updates = IdMap::new();
    updates.insert(id, ResourceUpdate::Removed);
    let mut out = Vec::new();
    harness.watcher.notify_update(BulkResourceUpdate::at(42, updates), &mut out);
    assert_eq!(out.len(), 1);
    assert_eq!(out[0].msg.bulk_update.timestamp, 42);
}

#[test]
fn test_positions_nest() {
    let mut table = IdTable::new();
    let id = ResourceId::new("resource-a", &mut table);
    let mut out = Vec::new();
    let mut middle = Vec::new();
    for _ in 0..2 {
        let leaves = vec![ResourceWatcher::new(IdMap::new()), ResourceWatcher::new(IdMap::new())];
        middle.push(ResourceWatcher::with_children(IdMap::new(), leaves, &mut out));
    }
    let mut root = ResourceWatcher::with_children(IdMap::new(), middle, &mut out);
    let sender = ResourceWatcherSender { channel: 0 };
    root.configure(ResourceWatcherConfig { src_idx: SourceIndex::new(0), sender }, &mut out);
    assert!(out.is_empty());
    for (path, position) in [([0, 0], at(&[0, 0, 0])), ([1, 0], at(&[0, 1, 0])), ([1, 1], at(&[0, 1, 1]))] {
        let leaf = root.child(path[0]).child(path[1]);
        leaf.notify_update(BulkResourceUpdate::single(id, ResourceUpdate::Removed), &mut out);
        assert_eq!(out.pop().unwrap().msg.src_idx, position);
    }
    root.child(1).notify_update(BulkResourceUpdate::single(id, ResourceUpdate::Removed), &mut out);
    assert_eq!(out.pop().unwrap().msg.src_idx, at(&[0, 1]));

    let config = ResourceWatcherConfig { src_idx: at(&[2, 5]), sender };
    assert_eq!(config.clone_with_sub_index(7).src_idx, at(&[2, 5, 7]));
    assert_eq!(config.clone_with_sub_index(at(&[7, 8])).src_idx, at(&[2, 5, 7, 8]));
    assert_eq!(config.clone_with_sub_index(SourceIndex::max()).src_idx.to_text(), format!("2:5:{}:MAX", usize::MAX));
}

#[test]
fn test_filter_watched() {
    let mut harness = Harness::new(0);
    let a = harness.id("a");
    let b = harness.id("b");
    harness.watcher.watch(a, None);
    assert_eq!(harness.watcher.filter_watched(&vec![b, a, b]), vec![a]);
    harness.watcher.unwatch(&a);
    assert!(harness.watcher.filter_watched(&vec![b, a]).is_empty());
}
