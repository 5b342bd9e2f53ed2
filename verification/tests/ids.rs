use std::cmp::Ordering;

use gtether::resource::constant::ConstantResourceSource as PathSource;
use gtether::resource::id::{IdTable, ResourceId};
use gtether::resource::path::ResourcePath;
use gtether::resource::source::constant::{hash_data, ConstantResourceSource};
use gtether::resource::source::dynamic::ResourceSourceDynamic;
use gtether::resource::source::fs::{
    FileAction, FileEvent, FileEventKind, ResourceSourceFile, ResourceSourceFiles,
};
use gtether::resource::source::list::ResourceSourceList;
use gtether::resource::source::{
    to_nanos, BulkResourceUpdate, DataSourceView, DataView, ResourceData, ResourceDataResult, ResourceDataSource,
    ResourceSource, ResourceUpdate, SourceIndex,
};
use gtether::resource::watcher::ResourceWatcher;
use gtether::resource::{LoadErrorView, ResKey, ResourceLoadError, SubResourceRef, SubResources};
use gtether::util::table::IdMap;

#[test]
fn test_ids_are_shared() {
    let mut table = IdTable::new();
    let a = ResourceId::new("a/b", &mut table);
    let b = ResourceId::new("c", &mut table);
    assert_eq!(ResourceId::new("a/b", &mut table), a);
    assert_ne!(a, b);
    assert_eq!(a.as_str(&table), "a/b");
    assert_eq!(b.as_str(&table), "c");
    assert_eq!(ResourceId::new("", &mut table).as_str(&table), "");
}

#[test]
fn test_ids_compare_by_name() {
    let mut table = IdTable::new();
    let z = ResourceId::new("z", &mut table);
    let a = ResourceId::new("a", &mut table);
    assert_eq!(a.compare_names(&z, &table), Ordering::Less);
    assert_eq!(z.compare_names(&a, &table), Ordering::Greater);
    assert_eq!(a.compare_names(&a, &table), Ordering::Equal);
}

#[test]
fn test_load_error_texts() {
    let mut table = IdTable::new();
    let a = ResourceId::new("a", &mut table);
    let b = ResourceId::new("b", &mut table);
    assert_eq!(
        ResourceLoadError::NotFound(a).to_text(&table),
        "No resource found that is associated with ID: 'a'"
    );
    assert_eq!(
        ResourceLoadError::from_mismatch(3, 4).to_text(&table),
        "Requested type (3) does not match previously loaded type (4)"
    );
    let (ka, kb) = (ResKey::new(a, 1, 1), ResKey::new(b, 1, 1));
    let cyclic = ResourceLoadError::CyclicLoad { parents: vec![ka, kb], key: ka };
    assert_eq!(
        cyclic.to_text(&table),
        "Cyclic load detected: [ResourceId { idx: 0, str: \"a\" }, ResourceId { idx: 1, str: \"b\" }] => a"
    );
    assert_eq!(cyclic.clone().to_text(&table), cyclic.to_text(&table));
    assert_eq!(ResourceLoadError::from_error("oh no".to_string()).to_text(&table), "oh no");
}

#[test]
fn test_id_descriptions() {
    let mut table = IdTable::new();
    let plain = ResourceId::new("a/b", &mut table);
    let odd = ResourceId::new("x\"\n'", &mut table);
    assert_eq!(plain.debug_text(&table), "ResourceId { idx: 0, str: \"a/b\" }");
    assert_eq!(odd.debug_text(&table), "ResourceId { idx: 1, str: \"x\\\"\\n'\" }");
    assert!(table.contains("a/b"));
    assert!(!table.contains("a"));
}

#[test]
fn test_sub_resources() {
    let mut subs = SubResources::new();
    assert_eq!(subs.attach_sub_resource("res", 7, 70), "res/<sub-0>");
    subs.attach_update_callback(71);
    assert_eq!(subs.attach_sub_resource("res", 8, 72), "res/<sub-2>");
    assert_eq!(subs.len(), 3);
    assert_eq!(subs.update_step(0).unwrap().debug_text(), "SubResource { type: \"SubResource\", type_id: 7, .. }");
    assert_eq!(subs.update_step(1).unwrap().debug_text(), "SubResource { type: \"Callback\", .. }");
    assert_eq!(subs.update_step(1), Some(SubResourceRef::Callback { handle: 71 }));
    assert_eq!(subs.update_step(2), Some(SubResourceRef::Resource { type_id: 8, handle: 72 }));
    assert_eq!(subs.update_step(3), None);
}

#[test]
fn test_paths() {
    let mut path = ResourcePath::new("a").joined("/b");
    path.append("/c");
    assert_eq!(path.as_str(), "a/b/c");
    assert!(path.equals(&path.duplicate()));
    assert!(!path.equals(&ResourcePath::new("a")));
}

#[test]
fn test_path_source() {
    let source = PathSource::builder()
        .resource(ResourcePath::new("a"), b"one")
        .resource(ResourcePath::new("b"), b"two")
        .resource(ResourcePath::new("a"), b"three")
        .build();
    assert_eq!(source.load(&ResourcePath::new("a")).ok(), Some(&b"three"[..]));
    assert_eq!(source.load(&ResourcePath::new("b")).ok(), Some(&b"two"[..]));
    assert_eq!(source.load(&ResourcePath::new("c")).err().unwrap().as_str(), "c");
}

#[test]
fn test_hash_is_sha256_in_base64() {
    assert_eq!(hash_data(b""), "47DEQpj8HBSa+/TImW+5JCeuQeRkm5NMpJWZG3hSuFU=");
    assert_eq!(hash_data(b"abc"), "ungWv48Bz+pBQUDeXa4iI7ADYaOWF3qctBD/YfIAFa0=");
}

#[test]
fn test_constant_source() {
    let mut table = IdTable::new();
    let a = ResourceId::new("a", &mut table);
    let b = ResourceId::new("b", &mut table);
    let c = ResourceId::new("c", &mut table);
    let source = ConstantResourceSource::builder()
        .resource(a, b"abc")
        .hashed_resource(b, b"data", "h".to_string())
        .build();
    let data = source.load(&a).unwrap();
    assert_eq!(data.data, b"abc");
    assert_eq!(data.source.hash, "ungWv48Bz+pBQUDeXa4iI7ADYaOWF3qctBD/YfIAFa0=");
    assert_eq!(source.hash(&b).unwrap().hash, "h");
    assert!(source.hash(&c).is_none());
    assert!(matches!(source.load(&c), Err(ResourceLoadError::NotFound(id)) if id == c));
}

fn constant(id: ResourceId, data: &'static [u8], hash: &str) -> ConstantResourceSource {
    ConstantResourceSource::builder().hashed_resource(id, data, hash.to_string()).build()
}

#[test]
fn test_source_list_precedence() {
    let mut table = IdTable::new();
    let a = ResourceId::new("a", &mut table);
    let b = ResourceId::new("b", &mut table);
    let list = ResourceSourceList::new(vec![
        ResourceSourceList::new(vec![constant(b, b"b0", "hb0")]),
        ResourceSourceList::new(vec![constant(b, b"b1", "hb1"), constant(a, b"a1", "ha1")]),
    ]);
    let hash = list.hash(&a).unwrap();
    assert_eq!((hash.hash.as_str(), hash.idx), ("ha1", Some(SourceIndex::from_indices(&[1, 1]))));
    let data = list.load(&b).unwrap();
    assert_eq!(data.data, b"b0");
    assert_eq!(data.source.idx, Some(SourceIndex::from_indices(&[0, 0])));
    let again = list.sub_load(&a, &SourceIndex::from_indices(&[1, 1])).unwrap();
    assert_eq!(again.data, b"a1");
    assert!(list.sub_load(&a, &SourceIndex::new(9)).is_err());
    let sealed = list.load(&b).unwrap().seal(4);
    assert_eq!(sealed.source.idx, SourceIndex::from_indices(&[4, 0, 0]));
}

#[test]
fn test_watch_plan() {
    let mut table = IdTable::new();
    let a = ResourceId::new("a", &mut table);
    let list = ResourceSourceList::new(vec![constant(a, b"0", "0"), constant(a, b"1", "1"), constant(a, b"2", "2")]);
    assert_eq!(list.watch_plan(None), vec![Some(None), Some(None), Some(None)]);
    let plan = list.watch_plan(Some(SourceIndex::from_indices(&[1, 5])));
    assert_eq!(plan.len(), 3);
    assert!(plan[0].is_some() && plan[1].is_some() && plan[2].is_none());
}

#[test]
fn test_dynamic_source() {
    let mut table = IdTable::new();
    let a = ResourceId::new("a", &mut table);
    let mut out = Vec::new();
    let mut dynamic = ResourceSourceDynamic::new();
    assert!(dynamic.hash(&a).is_none());
    dynamic.push(constant(a, b"late", "hl"), ResourceWatcher::new(IdMap::new()), &mut out);
    dynamic.insert(0, constant(a, b"early", "he"), ResourceWatcher::new(IdMap::new()), &mut out);
    assert_eq!(dynamic.len(), 2);
    assert_eq!(dynamic.load(&a).unwrap().data, b"early");
    dynamic.watch(a, None);
    assert!(dynamic.watcher().child(1).is_watched(&a));
    let (source, watcher) = dynamic.remove(0, &mut out);
    assert_eq!(source.load(&a).unwrap().data, b"early");
    assert!(!watcher.is_watched(&a));
    assert_eq!(dynamic.load(&a).unwrap().data, b"late");
    assert_eq!(dynamic.source(0).hash(&a).unwrap().hash, "hl");
}

/// A file that is named by a number.
struct TestFile {
    path: u64,
}

impl ResourceSource for TestFile {
    fn hash_of(&self, _id: ResourceId) -> Option<DataSourceView> {
        unreachable!()
    }

    fn data_of(&self, _id: ResourceId) -> Result<DataView, LoadErrorView> {
        unreachable!()
    }

    fn sub_data_of(&self, _id: ResourceId, _sub_idx: SourceIndex) -> Result<DataView, LoadErrorView> {
        unreachable!()
    }

    fn hash(&self, _id: &ResourceId) -> Option<ResourceDataSource> {
        Some(ResourceDataSource::new("h".to_string()))
    }

    fn load(&self, _id: &ResourceId) -> ResourceDataResult {
        Ok(ResourceData::new(vec![self.path as u8], "h".to_string()))
    }

    fn sub_load(&self, id: &ResourceId, _sub_idx: &SourceIndex) -> ResourceDataResult {
        self.load(id)
    }
}

impl ResourceSourceFile for TestFile {
    fn path_of(&self) -> u64 {
        unreachable!()
    }

    fn path(&self) -> u64 {
        self.path
    }
}

#[test]
fn test_file_events() {
    let mut out = Vec::new();
    let mut files = ResourceSourceFiles::new();
    for path in [10, 20, 10] {
        assert_eq!(files.push(TestFile { path }, ResourceWatcher::new(IdMap::new()), &mut out), path);
    }
    let event = |kind, paths: &[u64]| vec![FileEvent { kind, paths: paths.to_vec() }];
    assert_eq!(
        files.on_events(&event(FileEventKind::Create, &[10])),
        vec![FileAction::Reload(0), FileAction::Reload(2)]
    );
    assert_eq!(files.on_events(&event(FileEventKind::ModifyData, &[20])), vec![FileAction::Reload(1)]);
    assert_eq!(files.on_events(&event(FileEventKind::RenameTo, &[20])), vec![FileAction::Reload(1)]);
    assert_eq!(files.on_events(&event(FileEventKind::RenameFrom, &[20])), vec![FileAction::Invalidate(1)]);
    assert_eq!(files.on_events(&event(FileEventKind::Remove, &[20])), vec![FileAction::Invalidate(1)]);
    assert_eq!(
        files.on_events(&event(FileEventKind::RenameBoth, &[20, 10])),
        vec![FileAction::Invalidate(1), FileAction::Reload(0), FileAction::Reload(2)]
    );
    assert!(files.on_events(&event(FileEventKind::Other, &[10])).is_empty());
    let ((removed, watcher), path) = files.remove(1, &mut out);
    assert_eq!((removed.path, path), (20, 20));
    assert_eq!(watcher.source_index(), None);
    assert_eq!(files.source(1).path(), 10);
    assert_eq!(files.watcher().child_count(), 2);
    assert!(files.on_events(&event(FileEventKind::Remove, &[20])).is_empty());
}

#[test]
fn test_bulk_updates() {
    let mut table = IdTable::new();
    let a = ResourceId::new("a", &mut table);
    let b = ResourceId::new("b", &mut table);
    let bulk = BulkResourceUpdate::from_updates(vec![
        (a, ResourceUpdate::Added("1".to_string())),
        (b, ResourceUpdate::Removed),
        (a, ResourceUpdate::Modified("2".to_string())),
    ]);
    assert_eq!(bulk.updates.len(), 2);
    assert_eq!(bulk.updates.get(&a), Some(&ResourceUpdate::Modified("2".to_string())));
    assert_eq!(bulk.updates.get(&b), Some(&ResourceUpdate::Removed));
    assert!(bulk.timestamp > 1_600_000_000_000_000_000);
    assert_eq!(to_nanos(-2, 5), -1_999_999_995);
    assert_eq!(BulkResourceUpdate::at(5, IdMap::new()).timestamp, 5);
}
