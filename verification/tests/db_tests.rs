use tldir::errors::TldirError;
use tldir::similarity::{MIN_SCORE, SCALE};
use tldir::store::EmbeddingStore;

#[test]
fn test_embedding_storage_and_retrieval() {
    let mut store = EmbeddingStore::new();

    // collection creation
    let collection_id = store.create_collection("test", "code").unwrap();
    assert_eq!(collection_id.chars().count(), 36);

    // embedding storage (0.1, 0.2, 0.3 in fixed-point)
    let vector: Vec<i64> = vec![1000, 2000, 3000];
    let metadata = vec![("file".to_string(), "test.rs".to_string())];
    let id = store
        .store_embedding("test-segment", &vector, Some(metadata))
        .unwrap();

    // similarity search against the stored vector itself
    let similar = store.find_similar_embeddings(&vector, 1).unwrap();
    assert_eq!(similar.len(), 1);
    assert_eq!(similar[0].0.id, id);
    // self-similarity is exactly SCALE, the fixed-point cosine 1.0
    assert_eq!(similar[0].1, SCALE);
}

#[test]
fn test_duplicate_collection_name() {
    let mut store = EmbeddingStore::new();

    let first = store.create_collection("docs", "text");
    assert!(first.is_ok());

    let second = store.create_collection("docs", "other-topic");
    assert!(matches!(second, Err(TldirError::DuplicateName)));

    // the first collection remains queryable
    let found = store.get_collection("docs").unwrap();
    assert_eq!(found.name, "docs");
    assert_eq!(found.topic, "text");
    assert!(store.get_collection("absent").is_none());
}

#[test]
fn test_insert_collection_duplicate_id() {
    let mut store = EmbeddingStore::new();

    store
        .insert_collection("id-1", "first", "text")
        .unwrap();

    // a taken name fails with DuplicateName even under a fresh id
    let name_clash = store.insert_collection("id-2", "first", "text");
    assert!(matches!(name_clash, Err(TldirError::DuplicateName)));

    // a fresh name under a taken id is refused rather than stored
    let id_clash = store.insert_collection("id-1", "second", "text");
    assert!(matches!(id_clash, Err(TldirError::StoreUnavailable)));

    // fresh name and fresh id succeed
    assert!(store.insert_collection("id-2", "second", "text").is_ok());
}

#[test]
fn test_collection_ids_distinct() {
    let mut store = EmbeddingStore::new();
    let a = store.create_collection("alpha", "t").unwrap();
    let b = store.create_collection("beta", "t").unwrap();
    assert_ne!(a, b);
    assert_eq!(a.chars().count(), 36);
    assert_eq!(b.chars().count(), 36);
}

#[test]
fn test_duplicate_segment_pair() {
    let mut store = EmbeddingStore::new();
    let v: Vec<i64> = vec![10000, 0];

    let first = store.insert_embedding("seg-a", "emb-1", &v);
    assert!(first.is_ok());

    // the same (segment_id, embedding_id) pair collides
    let collision = store.insert_embedding("seg-a", "emb-1", &v);
    assert!(matches!(collision, Err(TldirError::DuplicateSegment)));

    // a distinct segment id never collides
    let other = store.insert_embedding("seg-b", "emb-1", &v);
    assert!(other.is_ok());
    // same segment under a distinct embedding id does not collide either
    let third = store.insert_embedding("seg-a", "emb-2", &v);
    assert!(third.is_ok());
}

#[test]
fn test_find_similar_sorted_and_clamped() {
    let mut store = EmbeddingStore::new();
    let query: Vec<i64> = vec![10000, 0];

    store.store_embedding("s1", &vec![10000, 0], None).unwrap();
    store.store_embedding("s2", &vec![0, 10000], None).unwrap();
    store.store_embedding("s3", &vec![7000, 7000], None).unwrap();
    store.store_embedding("s4", &vec![-10000, 0], None).unwrap();

    // a limit beyond the candidate count returns exactly the candidate count
    let all = store.find_similar_embeddings(&query, 100).unwrap();
    assert_eq!(all.len(), 4);

    // scores are non-increasing
    for w in all.windows(2) {
        assert!(w[0].1 >= w[1].1);
    }

    // the identical vector ranks first, the opposite one last
    assert_eq!(all[0].0.segment_id, "s1");
    assert_eq!(all[0].1, SCALE);
    assert_eq!(all[3].0.segment_id, "s4");
    assert_eq!(all[3].1, -SCALE);

    // a limit of zero returns an empty result, not an error
    let none = store.find_similar_embeddings(&query, 0).unwrap();
    assert!(none.is_empty());

    let top2 = store.find_similar_embeddings(&query, 2).unwrap();
    assert_eq!(top2.len(), 2);
    assert_eq!(top2[0].0.segment_id, "s1");
}

#[test]
fn test_zero_vector_scores_floor() {
    let mut store = EmbeddingStore::new();
    let query: Vec<i64> = vec![10000, 0];

    store.store_embedding("zero", &vec![0, 0], None).unwrap();
    store.store_embedding("real", &vec![5000, 5000], None).unwrap();

    let all = store.find_similar_embeddings(&query, 10).unwrap();
    assert_eq!(all.len(), 2);
    // the zero-magnitude vector ranks last with the floor score
    assert_eq!(all[1].0.segment_id, "zero");
    assert_eq!(all[1].1, MIN_SCORE);
    assert!(all[0].1 > MIN_SCORE);
}

#[test]
fn test_ties_broken_by_storage_order() {
    let mut store = EmbeddingStore::new();
    let query: Vec<i64> = vec![10000, 0];

    // proportional vectors score identically; storage order decides
    store.store_embedding("first", &vec![5000, 0], None).unwrap();
    store.store_embedding("second", &vec![10000, 0], None).unwrap();

    let all = store.find_similar_embeddings(&query, 2).unwrap();
    assert_eq!(all[0].1, all[1].1);
    assert_eq!(all[0].0.segment_id, "first");
    assert_eq!(all[1].0.segment_id, "second");
}

#[test]
fn test_partial_metadata_failure_keeps_row() {
    let mut store = EmbeddingStore::new();
    let v: Vec<i64> = vec![10000, 0];
    let metadata = vec![
        ("file".to_string(), "a.rs".to_string()),
        ("lang".to_string(), "rust".to_string()),
        ("file".to_string(), "b.rs".to_string()),
    ];

    let result = store.store_embedding("seg", &v, Some(metadata));
    match result {
        Err(TldirError::PartialMetadataFailure { failed_keys }) => {
            assert_eq!(failed_keys, vec!["file".to_string()]);
        },
        other => panic!("expected a partial metadata failure, got {:?}", other.is_ok()),
    }

    // the embedding row was committed despite the metadata failure
    let all = store.find_similar_embeddings(&v, 10).unwrap();
    assert_eq!(all.len(), 1);
    assert_eq!(all[0].0.segment_id, "seg");
}

#[test]
fn test_metadata_all_fresh_keys() {
    let mut store = EmbeddingStore::new();
    let v: Vec<i64> = vec![10000, 0];
    let metadata = vec![
        ("file".to_string(), "a.rs".to_string()),
        ("lang".to_string(), "rust".to_string()),
    ];
    let id = store.store_embedding("seg", &v, Some(metadata)).unwrap();
    assert_eq!(id, 1);
}

#[test]
fn test_metadata_lookup() {
    let mut store = EmbeddingStore::new();
    let v: Vec<i64> = vec![10000, 0];
    let metadata = vec![("file".to_string(), "a.rs".to_string())];
    let id = store.store_embedding("seg", &v, Some(metadata)).unwrap();

    assert_eq!(store.get_metadata_string(id, "file"), Some("a.rs".to_string()));
    assert_eq!(store.get_metadata_string(id, "lang"), None);
    assert_eq!(store.get_metadata_string(id + 1, "file"), None);
}

#[test]
fn test_row_ids_consecutive() {
    let mut store = EmbeddingStore::new();
    let v: Vec<i64> = vec![1, 2, 3];
    assert_eq!(store.store_embedding("a", &v, None).unwrap(), 1);
    assert_eq!(store.store_embedding("b", &v, None).unwrap(), 2);
    assert_eq!(store.store_embedding("c", &v, None).unwrap(), 3);
}
