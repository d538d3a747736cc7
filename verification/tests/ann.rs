use hnsw_rs::anndists::dist::distances::DistCosine;
use hnsw_rs::hnsw::Hnsw;
use pikodb::client::Client;
use pikodb::collection::fetch_count;
use pikodb::embedding::{EmbeddingType, Point};
use pikodb::index::IndexConfig;
use pikodb::search::EfSearch;

fn bits(vals: &[f32]) -> Vec<u32> {
    vals.iter().map(|v| v.to_bits()).collect()
}

fn floats(bits: &[u32]) -> Vec<f32> {
    bits.iter().map(|b| f32::from_bits(*b)).collect()
}

fn new_index(dim: usize) -> Hnsw<'static, f32, DistCosine> {
    Hnsw::new(16, 10_000, dim, IndexConfig::standard(EmbeddingType::Custom(dim)).build_quality.value(), DistCosine)
}

/// Replay every stored vector into a fresh graph, ascending by slot; used
/// after an overwrite, since the graph itself has no update primitive.
fn rebuild_index(client: &Client, name: &str, dim: usize) -> Hnsw<'static, f32, DistCosine> {
    let index = new_index(dim);
    let c = client.get_collection(name).unwrap();
    for (slot, p) in c.points.iter().enumerate() {
        index.insert((&floats(&p.vector), slot));
    }
    index
}

fn search_ids(
    client: &Client,
    index: &Hnsw<'static, f32, DistCosine>,
    name: &str,
    query: &[f32],
    limit: usize,
) -> Vec<u128> {
    let filters: Vec<Vec<(String, String)>> = vec![];
    let fetch = fetch_count(limit, &filters);
    let neighbours = index.search(query, fetch, EfSearch::Balanced.value());
    let n_points = client.get_collection(name).unwrap().points.len();
    let candidates: Vec<usize> = neighbours
        .iter()
        .map(|nb| nb.d_id)
        .filter(|d| *d < n_points)
        .collect();
    let r = client.query(name, &candidates, limit).unwrap();
    r.iter().map(|p| p.id).collect()
}

#[test]
fn example_upsert_overwrite_search() {
    let mut client = Client::in_memory();
    let cfg = IndexConfig::standard(EmbeddingType::Custom(3));
    client.create_collection("docs", cfg).unwrap();
    let mut index = new_index(3);

    let (ops, r) = client.upsert_points("docs", vec![Point::with_id(1, bits(&[1.0, 0.0, 0.0]), None)]);
    r.unwrap();
    for (slot, v) in &ops {
        index.insert((&floats(v), *slot));
    }
    let (ops, r) = client.upsert_points("docs", vec![Point::with_id(2, bits(&[0.0, 1.0, 0.0]), None)]);
    r.unwrap();
    for (slot, v) in &ops {
        index.insert((&floats(v), *slot));
    }

    assert_eq!(search_ids(&client, &index, "docs", &[1.0, 0.0, 0.0], 1), vec![1]);

    // overwrite point 1 so it moves away from the query vector
    let (ops, r) = client.upsert_points("docs", vec![Point::with_id(1, bits(&[0.0, 0.0, 1.0]), None)]);
    r.unwrap();
    assert_eq!(ops, vec![(0usize, bits(&[0.0, 0.0, 1.0]))]);
    // an overwrite reuses a slot, so the graph is rebuilt from current state
    index = rebuild_index(&client, "docs", 3);

    assert_eq!(search_ids(&client, &index, "docs", &[1.0, 0.0, 0.0], 1), vec![2]);
}

#[test]
fn index_survives_save_and_load() {
    let mut client = Client {
        collections: Vec::new(),
        persistence_adapter: Some(pikodb::persistence_adapter::Persistence::filesystem(
            String::from("db.bin"),
        )),
    };
    let cfg = IndexConfig::standard(EmbeddingType::Custom(3));
    client.create_collection("docs", cfg).unwrap();
    let (_, r) = client.upsert_points(
        "docs",
        vec![
            Point::with_id(1, bits(&[1.0, 0.0, 0.0]), None),
            Point::with_id(2, bits(&[0.0, 1.0, 0.0]), None),
            Point::with_id(3, bits(&[0.7, 0.7, 0.0]), None),
        ],
    );
    r.unwrap();
    let req = client.persist().unwrap();
    let loaded = Client::persistent(
        pikodb::persistence_adapter::Persistence::filesystem(String::from("db.bin")),
        req.bytes,
    )
    .unwrap();
    // rebuilding in ascending slot order reproduces the same candidates
    let before = rebuild_index(&client, "docs", 3);
    let after = rebuild_index(&loaded, "docs", 3);
    let q = [0.9, 0.1, 0.0];
    let ids_before = search_ids(&client, &before, "docs", &q, 2);
    let ids_after = search_ids(&loaded, &after, "docs", &q, 2);
    assert_eq!(ids_before, ids_after);
    assert_eq!(ids_before[0], 1);
}
