use cortexdb::error::CoordinationError;
use cortexdb::metadata::{CollectionMetadata, MetadataManager};

fn collection(name: &str, dimension: usize, shard_count: usize) -> CollectionMetadata {
    CollectionMetadata {
        name: name.to_string(),
        dimension,
        metric: "cosine".to_string(),
        index_type: "hnsw".to_string(),
        shard_count,
        replica_count: 2,
        created_at: 1_000,
        updated_at: 1_000,
    }
}

fn names(m: &MetadataManager) -> Vec<String> {
    m.list_collections().iter().map(|c| c.name.clone()).collect()
}

#[test]
fn new_registry_is_empty() {
    let m = MetadataManager::new();
    assert!(m.list_collections().is_empty());
    assert_eq!(m.get_collection("docs").unwrap_err(), CoordinationError::NotFound);
}

#[test]
fn adding_the_same_collection_twice_fails() {
    let mut m = MetadataManager::new();
    assert_eq!(m.add_collection(collection("docs", 128, 4)), Ok(()));
    assert_eq!(
        m.add_collection(collection("docs", 128, 4)),
        Err(CoordinationError::DuplicateCollection)
    );
    assert_eq!(
        m.add_collection(collection("docs", 64, 1)),
        Err(CoordinationError::DuplicateCollection)
    );
    assert_eq!(names(&m), vec!["docs"]);
    let kept = m.get_collection("docs").unwrap();
    assert_eq!(kept.dimension, 128);
    assert_eq!(kept.shard_count, 4);
}

#[test]
fn get_collection_returns_the_record() {
    let mut m = MetadataManager::new();
    m.add_collection(collection("a", 3, 1)).unwrap();
    m.add_collection(collection("b", 5, 2)).unwrap();
    let b = m.get_collection("b").unwrap();
    assert_eq!(b.name, "b");
    assert_eq!(b.dimension, 5);
    assert_eq!(b.metric, "cosine");
    assert_eq!(b.index_type, "hnsw");
    assert_eq!(b.shard_count, 2);
    assert_eq!(b.replica_count, 2);
    assert_eq!(b.created_at, 1_000);
    assert_eq!(b.updated_at, 1_000);
    assert_eq!(m.get_collection("c").unwrap_err(), CoordinationError::NotFound);
    assert_eq!(m.get_collection("").unwrap_err(), CoordinationError::NotFound);
}

#[test]
fn update_keeps_creation_time_and_bumps_update_time() {
    let mut m = MetadataManager::new();
    m.add_collection(collection("a", 3, 1)).unwrap();
    m.add_collection(collection("b", 5, 2)).unwrap();
    let mut changed = collection("a", 7, 9);
    changed.metric = "euclidean".to_string();
    changed.created_at = 5;
    changed.updated_at = 6;
    assert_eq!(m.update_collection_at(changed, 2_000), Ok(()));
    let a = m.get_collection("a").unwrap();
    assert_eq!(a.dimension, 7);
    assert_eq!(a.shard_count, 9);
    assert_eq!(a.metric, "euclidean");
    assert_eq!(a.created_at, 1_000);
    assert_eq!(a.updated_at, 2_000);
    let b = m.get_collection("b").unwrap();
    assert_eq!(b.dimension, 5);
    assert_eq!(b.updated_at, 1_000);
    assert_eq!(names(&m), vec!["a", "b"]);
}

#[test]
fn update_of_unknown_collection_fails() {
    let mut m = MetadataManager::new();
    m.add_collection(collection("a", 3, 1)).unwrap();
    assert_eq!(
        m.update_collection_at(collection("z", 3, 1), 2_000),
        Err(CoordinationError::NotFound)
    );
    assert_eq!(m.update_collection(collection("z", 3, 1)), Err(CoordinationError::NotFound));
    assert_eq!(names(&m), vec!["a"]);
    assert_eq!(m.get_collection("a").unwrap().updated_at, 1_000);
}

#[test]
fn update_collection_uses_the_clock() {
    let mut m = MetadataManager::new();
    m.add_collection(collection("a", 3, 1)).unwrap();
    assert_eq!(m.update_collection(collection("a", 4, 1)), Ok(()));
    let a = m.get_collection("a").unwrap();
    assert_eq!(a.dimension, 4);
    assert_eq!(a.created_at, 1_000);
    assert!(a.updated_at > 1_600_000_000);
}

#[test]
fn delete_removes_the_record() {
    let mut m = MetadataManager::new();
    m.add_collection(collection("a", 3, 1)).unwrap();
    m.add_collection(collection("b", 5, 2)).unwrap();
    m.add_collection(collection("c", 5, 2)).unwrap();
    assert_eq!(m.delete_collection("b"), Ok(()));
    assert_eq!(names(&m), vec!["a", "c"]);
    assert_eq!(m.delete_collection("b"), Err(CoordinationError::NotFound));
    assert_eq!(m.get_collection("b").unwrap_err(), CoordinationError::NotFound);
    assert_eq!(m.add_collection(collection("b", 1, 1)), Ok(()));
    assert_eq!(names(&m), vec!["a", "c", "b"]);
}

#[test]
fn collection_clone_copies_every_field() {
    let mut c = collection("a", 3, 4);
    c.updated_at = 9;
    let d = c.clone();
    assert_eq!(d.name, "a");
    assert_eq!(d.dimension, 3);
    assert_eq!(d.metric, "cosine");
    assert_eq!(d.index_type, "hnsw");
    assert_eq!(d.shard_count, 4);
    assert_eq!(d.replica_count, 2);
    assert_eq!(d.created_at, 1_000);
    assert_eq!(d.updated_at, 9);
}
