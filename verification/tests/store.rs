use pikodb::client::Client;
use pikodb::collection::{fetch_count, Collection};
use pikodb::embedding::{EmbeddingType, Point};
use pikodb::error::{PersistenceError, VectorDbError};
use pikodb::index::{IndexBuildQuality, IndexConfig};
use pikodb::persistence_adapter::Persistence;
use pikodb::search::EfSearch;

fn bits(vals: &[f32]) -> Vec<u32> {
    vals.iter().map(|v| v.to_bits()).collect()
}

fn cfg3() -> IndexConfig {
    IndexConfig::standard(EmbeddingType::Custom(3))
}

#[test]
fn embedding_dimensions() {
    assert_eq!(EmbeddingType::TextEmbedding3Small.dimension(), 1536);
    assert_eq!(EmbeddingType::TextEmbedding3Large.dimension(), 3072);
    assert_eq!(EmbeddingType::Custom(7).dimension(), 7);
}

#[test]
fn effort_values() {
    assert_eq!(IndexBuildQuality::Quick.value(), 100);
    assert_eq!(IndexBuildQuality::Standard.value(), 200);
    assert_eq!(IndexBuildQuality::Robust.value(), 400);
    assert_eq!(EfSearch::Fast.value(), 50);
    assert_eq!(EfSearch::Balanced.value(), 200);
    assert_eq!(EfSearch::Accurate.value(), 500);
}

#[test]
fn index_config_constructors() {
    let c = IndexConfig::new(IndexBuildQuality::Robust, EmbeddingType::Custom(5));
    assert!(matches!(c.build_quality, IndexBuildQuality::Robust));
    assert_eq!(c.embedding_dimension(), 5);
    assert!(matches!(
        IndexConfig::quick(EmbeddingType::Custom(1)).build_quality,
        IndexBuildQuality::Quick
    ));
    assert!(matches!(
        IndexConfig::standard(EmbeddingType::Custom(1)).build_quality,
        IndexBuildQuality::Standard
    ));
    assert!(matches!(
        IndexConfig::robust(EmbeddingType::Custom(1)).build_quality,
        IndexBuildQuality::Robust
    ));
}

#[test]
fn dimension_mismatch_leaves_collection_unchanged() {
    let mut c = Collection::with_index_config(cfg3());
    let p = Point::with_id(1, bits(&[1.0, 0.0]), None);
    let r = c.upsert(p);
    assert_eq!(
        r,
        Err(VectorDbError::DimensionMismatch { expected: 3, actual: 2 })
    );
    assert_eq!(c.points.len(), 0);
    assert_eq!(c.id_to_index.len(), 0);
}

#[test]
fn upsert_assigns_dense_slots() {
    let mut c = Collection::with_index_config(cfg3());
    assert_eq!(c.upsert(Point::with_id(1, bits(&[1.0, 0.0, 0.0]), None)), Ok(0));
    assert_eq!(c.upsert(Point::with_id(2, bits(&[0.0, 1.0, 0.0]), None)), Ok(1));
    assert_eq!(c.points.len(), 2);
    assert_eq!(c.id_to_index, vec![(1u128, 0usize), (2u128, 1usize)]);
}

#[test]
fn idempotent_overwrite() {
    let mut c = Collection::with_index_config(cfg3());
    let md1 = Some(vec![(String::from("k"), String::from("v1"))]);
    let md2 = Some(vec![(String::from("k"), String::from("v2"))]);
    assert_eq!(c.upsert(Point::with_id(1, bits(&[1.0, 0.0, 0.0]), md1)), Ok(0));
    assert_eq!(c.upsert(Point::with_id(1, bits(&[0.0, 0.0, 1.0]), md2)), Ok(0));
    assert_eq!(c.points.len(), 1);
    assert_eq!(c.id_to_index, vec![(1u128, 0usize)]);
    assert_eq!(c.points[0].vector, bits(&[0.0, 0.0, 1.0]));
    assert_eq!(
        c.points[0].metadata,
        Some(vec![(String::from("k"), String::from("v2"))])
    );
}

#[test]
fn fetch_count_overfetches_only_with_filters() {
    let no_filters: Vec<Vec<(String, String)>> = vec![];
    let one_filter = vec![vec![(String::from("k"), String::from("v"))]];
    assert_eq!(fetch_count(10, &no_filters), 10);
    assert_eq!(fetch_count(10, &one_filter), 50);
    assert_eq!(fetch_count(usize::MAX, &one_filter), usize::MAX);
}

fn tagged(id: u128, v: &[f32], key: &str, val: &str) -> Point {
    Point::with_id(id, bits(v), Some(vec![(String::from(key), String::from(val))]))
}

#[test]
fn filtered_selection_keeps_only_matches_in_order() {
    let mut c = Collection::with_index_config(cfg3());
    c.upsert(tagged(1, &[1.0, 0.0, 0.0], "color", "red")).unwrap();
    c.upsert(tagged(2, &[0.0, 1.0, 0.0], "color", "blue")).unwrap();
    c.upsert(tagged(3, &[0.0, 0.0, 1.0], "color", "red")).unwrap();
    let candidates = vec![2usize, 0usize, 1usize];
    let filters = vec![vec![(String::from("color"), String::from("red"))]];
    let r = c.search_with_filter(&candidates, 10, &filters);
    let ids: Vec<u128> = r.iter().map(|p| p.id).collect();
    assert_eq!(ids, vec![3, 1]);
}

#[test]
fn empty_filters_select_first_limit_candidates() {
    let mut c = Collection::with_index_config(cfg3());
    c.upsert(tagged(1, &[1.0, 0.0, 0.0], "a", "b")).unwrap();
    c.upsert(tagged(2, &[0.0, 1.0, 0.0], "a", "b")).unwrap();
    c.upsert(tagged(3, &[0.0, 0.0, 1.0], "a", "b")).unwrap();
    let candidates = vec![1usize, 2usize, 0usize];
    let filters: Vec<Vec<(String, String)>> = vec![];
    let r = c.search_with_filter(&candidates, 2, &filters);
    let ids: Vec<u128> = r.iter().map(|p| p.id).collect();
    assert_eq!(ids, vec![2, 3]);
}

#[test]
fn overfetch_shortfall_is_accepted() {
    // Fewer candidates pass the filter than the limit asks for: the result is
    // legitimately short, not an error.
    let mut c = Collection::with_index_config(cfg3());
    c.upsert(tagged(1, &[1.0, 0.0, 0.0], "color", "red")).unwrap();
    c.upsert(tagged(2, &[0.0, 1.0, 0.0], "color", "blue")).unwrap();
    c.upsert(tagged(3, &[0.0, 0.0, 1.0], "color", "blue")).unwrap();
    let candidates = vec![0usize, 1usize, 2usize];
    let filters = vec![vec![(String::from("color"), String::from("red"))]];
    let r = c.search_with_filter(&candidates, 2, &filters);
    assert_eq!(r.len(), 1);
    assert_eq!(r[0].id, 1);
}

#[test]
fn unknown_collection_is_an_error_without_side_effects() {
    let mut client = Client::in_memory();
    let r = client.query("missing", &vec![], 1);
    assert_eq!(
        r,
        Err(VectorDbError::CollectionNotFound { name: String::from("missing") })
    );
    let (ops, r2) = client.upsert_points("missing", vec![tagged(1, &[1.0, 0.0, 0.0], "a", "b")]);
    assert_eq!(ops.len(), 0);
    assert_eq!(
        r2,
        Err(VectorDbError::CollectionNotFound { name: String::from("missing") })
    );
    assert_eq!(client.collections.len(), 0);
}

#[test]
fn create_collection_is_idempotent() {
    let mut client = Client::in_memory();
    assert_eq!(client.create_collection("docs", cfg3()), Ok(()));
    assert_eq!(
        client.create_collection("docs", IndexConfig::quick(EmbeddingType::Custom(9))),
        Ok(())
    );
    assert_eq!(client.collections.len(), 1);
    // the second create did not alter the stored configuration
    assert_eq!(client.collections[0].1.index_config.embedding_dimension(), 3);
}

#[test]
fn batch_upsert_stops_at_first_mismatch() {
    let mut client = Client::in_memory();
    client.create_collection("docs", cfg3()).unwrap();
    let pts = vec![
        Point::with_id(1, bits(&[1.0, 0.0, 0.0]), None),
        Point::with_id(2, bits(&[1.0, 0.0]), None),
        Point::with_id(3, bits(&[0.0, 1.0, 0.0]), None),
    ];
    let (ops, r) = client.upsert_points("docs", pts);
    assert_eq!(r, Err(VectorDbError::DimensionMismatch { expected: 3, actual: 2 }));
    assert_eq!(ops.len(), 1);
    assert_eq!(ops[0], (0usize, bits(&[1.0, 0.0, 0.0])));
    let c = client.get_collection("docs").unwrap();
    assert_eq!(c.points.len(), 1);
    assert_eq!(c.points[0].id, 1);
}

#[test]
fn persist_without_adapter_is_not_configured() {
    let client = Client::in_memory();
    let r = client.persist();
    assert!(matches!(
        r,
        Err(VectorDbError::PersistenceError(PersistenceError::NotConfigured))
    ));
}

#[test]
fn save_then_load_restores_collections_verbatim() {
    let adapter = Persistence::filesystem(String::from("db.bin"));
    let mut client = Client {
        collections: Vec::new(),
        persistence_adapter: Some(adapter),
    };
    client.create_collection("docs", cfg3()).unwrap();
    let (_, r) = client.upsert_points(
        "docs",
        vec![
            tagged(7, &[1.0, 0.0, 0.0], "lang", "en"),
            tagged(9, &[0.0, 1.0, 0.0], "lang", "de"),
        ],
    );
    r.unwrap();
    let req = client.persist().unwrap();
    assert_eq!(req.path, String::from("db.bin"));

    let loaded = Client::persistent(Persistence::filesystem(String::from("db.bin")), req.bytes)
        .unwrap();
    assert_eq!(loaded.collections.len(), 1);
    let (name, c) = &loaded.collections[0];
    let orig = &client.collections[0].1;
    assert_eq!(name, &String::from("docs"));
    assert_eq!(c.points.len(), orig.points.len());
    for i in 0..c.points.len() {
        assert_eq!(c.points[i].id, orig.points[i].id);
        assert_eq!(c.points[i].vector, orig.points[i].vector);
        assert_eq!(c.points[i].metadata, orig.points[i].metadata);
    }
    assert_eq!(c.id_to_index, orig.id_to_index);
    assert_eq!(c.index_config.embedding_dimension(), 3);
    // the same candidate slots select the same points after the round trip
    let before = client.query("docs", &vec![0usize, 1usize], 2).unwrap();
    let after = loaded.query("docs", &vec![0usize, 1usize], 2).unwrap();
    let ids_b: Vec<u128> = before.iter().map(|p| p.id).collect();
    let ids_a: Vec<u128> = after.iter().map(|p| p.id).collect();
    assert_eq!(ids_b, ids_a);
}

#[test]
fn corrupt_snapshots_are_rejected() {
    let adapter = Persistence::filesystem(String::from("db.bin"));
    let mut client = Client {
        collections: Vec::new(),
        persistence_adapter: Some(adapter),
    };
    client.create_collection("docs", cfg3()).unwrap();
    let req = client.persist().unwrap();

    let mut truncated = req.bytes.clone();
    truncated.pop();
    assert_eq!(
        Client::persistent(Persistence::filesystem(String::from("db.bin")), truncated).err(),
        Some(VectorDbError::PersistenceError(PersistenceError::Deserialization))
    );

    let mut trailing = req.bytes.clone();
    trailing.push(0);
    assert_eq!(
        Client::persistent(Persistence::filesystem(String::from("db.bin")), trailing).err(),
        Some(VectorDbError::PersistenceError(PersistenceError::Deserialization))
    );

    assert_eq!(
        Client::persistent(Persistence::filesystem(String::from("db.bin")), vec![]).err(),
        Some(VectorDbError::PersistenceError(PersistenceError::Deserialization))
    );
}

#[test]
fn metadata_lookup_is_first_match() {
    let entries = vec![
        (String::from("k"), String::from("first")),
        (String::from("k"), String::from("second")),
    ];
    let key = String::from("k");
    assert_eq!(
        pikodb::search::metadata_get(&entries, &key),
        Some(&String::from("first"))
    );
    let missing = String::from("absent");
    assert_eq!(pikodb::search::metadata_get(&entries, &missing), None);
}

#[test]
fn get_or_create_returns_existing_or_new() {
    let mut client = Client::in_memory();
    client.create_collection("docs", cfg3()).unwrap();
    {
        let c = client.get_or_create_collection("docs", cfg3()).unwrap();
        assert_eq!(c.index_config.embedding_dimension(), 3);
    }
    assert_eq!(client.collections.len(), 1);
    {
        let c = client
            .get_or_create_collection("other", IndexConfig::quick(EmbeddingType::Custom(2)))
            .unwrap();
        assert_eq!(c.index_config.embedding_dimension(), 2);
    }
    assert_eq!(client.collections.len(), 2);
}

#[test]
fn unfiltered_search_maps_candidates_in_order() {
    let mut c = Collection::with_index_config(cfg3());
    c.upsert(Point::with_id(4, bits(&[1.0, 0.0, 0.0]), None)).unwrap();
    c.upsert(Point::with_id(5, bits(&[0.0, 1.0, 0.0]), None)).unwrap();
    let r = c.search(&vec![1usize, 0usize], 5);
    let ids: Vec<u128> = r.iter().map(|p| p.id).collect();
    assert_eq!(ids, vec![5, 4]);
}

#[test]
fn filesystem_adapter_keeps_its_path() {
    let a = pikodb::persistence_adapter::FileSystemPersistenceAdapter::new(String::from(
        "store.bin",
    ));
    assert_eq!(a.path(), &String::from("store.bin"));
    let p = Persistence::filesystem(String::from("other.bin"));
    assert_eq!(p.path(), &String::from("other.bin"));
}

#[test]
fn new_points_carry_vector_and_attributes() {
    let md = Some(vec![(String::from("k"), String::from("v"))]);
    let p = Point::new(bits(&[1.0, 2.0]), md.clone());
    let q = Point::new(bits(&[1.0, 2.0]), md.clone());
    assert_eq!(p.vector, bits(&[1.0, 2.0]));
    assert_eq!(p.metadata, md);
    // identifiers are drawn fresh, so two new points are distinct entities
    assert_ne!(p.id, q.id);
}
