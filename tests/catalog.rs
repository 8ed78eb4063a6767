use reco_forge::{candidates, find_embedding, ranked, BuildError, CatalogStore, Data, QueryError};

fn item(id: i32, name: &str, tags: &[&str]) -> Data {
    Data {
        id,
        name: name.to_string(),
        summary: format!("about {}", name),
        tags: tags.iter().map(|t| t.to_string()).collect(),
    }
}

fn three_items() -> Vec<Data> {
    vec![item(1, "A", &["x"]), item(2, "B", &["y"]), item(3, "C", &["x", "y"])]
}

fn built(embeddings: Vec<Vec<f32>>) -> CatalogStore<Vec<f32>> {
    let mut store = CatalogStore::from_records(three_items()).ok().unwrap();
    assert_eq!(store.insert_embeddings(embeddings), Ok(()));
    store
}

fn score(a: &[f32], b: &[f32]) -> i64 {
    let dot: f32 = a.iter().zip(b).map(|(x, y)| x * y).sum();
    let na: f32 = a.iter().map(|x| x * x).sum::<f32>().sqrt();
    let nb: f32 = b.iter().map(|x| x * x).sum::<f32>().sqrt();
    (dot / (na * nb) * 1000.0).round() as i64
}

fn answer(store: &CatalogStore<Vec<f32>>, query: &[f32], exclude: Option<&str>, tags: &str, k: usize) -> Vec<(String, i64)> {
    let picked = candidates(store, exclude, tags).unwrap();
    let scores: Vec<i64> = picked.iter().map(|&i| score(query, store.embedding(i).unwrap())).collect();
    ranked(store, &picked, &scores, k).unwrap()
}

#[test]
fn duplicate_ids_are_a_data_source_error() {
    let records = vec![item(1, "A", &[]), item(2, "B", &[]), item(1, "C", &[])];
    assert!(matches!(CatalogStore::<Vec<f32>>::from_records(records), Err(BuildError::DataSourceError)));
    assert!(CatalogStore::<Vec<f32>>::unique_ids(&three_items()));
}

#[test]
fn embedding_count_must_match() {
    let mut store = CatalogStore::<Vec<f32>>::from_records(three_items()).ok().unwrap();
    assert_eq!(store.insert_embeddings(vec![vec![1.0]]), Err(BuildError::EmbeddingProviderError));
    assert!(store.embedding(0).is_none());
    assert_eq!(store.summaries(), vec!["about A".to_string(), "about B".to_string(), "about C".to_string()]);
}

#[test]
fn embeddings_are_stored_by_position() {
    let store = built(vec![vec![1.0, 0.0], vec![0.0, 1.0], vec![0.7, 0.7]]);
    assert_eq!(store.len(), 3);
    assert_eq!(store.embedding(1), Some(&vec![0.0, 1.0]));
    assert_eq!(store.item(2).name, "C");
}

#[test]
fn end_to_end_by_vector() {
    let store = built(vec![vec![1.0, 0.0], vec![0.0, 1.0], vec![0.7, 0.7]]);
    let got = answer(&store, &[1.0, 0.0], None, "NONE", 2);
    assert_eq!(got, vec![("A".to_string(), 1000), ("C".to_string(), 707)]);
}

#[test]
fn end_to_end_by_item_excludes_itself() {
    let store = built(vec![vec![1.0, 0.0], vec![0.0, 1.0], vec![0.7, 0.7]]);
    let query = find_embedding(&store, " a ").unwrap().clone();
    assert_eq!(query, vec![1.0, 0.0]);
    let got = answer(&store, &query, Some("a"), "NONE", 3);
    assert_eq!(got, vec![("C".to_string(), 707), ("B".to_string(), 0)]);
    assert!(got.iter().all(|(n, _)| n != "A"));
}

#[test]
fn tags_restrict_candidates() {
    let store = built(vec![vec![1.0, 0.0], vec![0.0, 1.0], vec![0.7, 0.7]]);
    assert_eq!(candidates(&store, None, "X").unwrap(), vec![0, 2]);
    assert_eq!(candidates(&store, None, "x,y").unwrap(), vec![2]);
    assert_eq!(candidates(&store, Some("C"), "y").unwrap(), vec![1]);
}

#[test]
fn no_match_gives_empty_result() {
    let store = built(vec![vec![1.0, 0.0], vec![0.0, 1.0], vec![0.7, 0.7]]);
    assert_eq!(candidates(&store, None, "z").unwrap(), Vec::<usize>::new());
    assert_eq!(answer(&store, &[1.0, 0.0], None, "z", 5), vec![]);
    let empty = CatalogStore::<Vec<f32>>::from_records(vec![]).ok().unwrap();
    assert_eq!(answer(&empty, &[1.0, 0.0], None, "NONE", 5), vec![]);
}

#[test]
fn unknown_item_is_not_found() {
    let store = built(vec![vec![1.0, 0.0], vec![0.0, 1.0], vec![0.7, 0.7]]);
    assert_eq!(find_embedding(&store, "D"), Err(QueryError::ItemNotFound));
}

#[test]
fn unpopulated_store_reports_missing_embedding() {
    let store = CatalogStore::<Vec<f32>>::from_records(three_items()).ok().unwrap();
    assert_eq!(find_embedding(&store, "b"), Err(QueryError::MissingEmbedding));
    assert_eq!(candidates(&store, None, "NONE"), Err(QueryError::MissingEmbedding));
    assert_eq!(candidates(&store, None, "z"), Ok(vec![]));
}

#[test]
fn ranking_needs_room_for_one() {
    let store = built(vec![vec![1.0, 0.0], vec![0.0, 1.0], vec![0.7, 0.7]]);
    assert!(ranked(&store, &vec![0], &vec![5], 0).is_err());
}

#[test]
fn item_display_shows_name_and_summary() {
    assert_eq!(item(7, "Dune", &[]).display(), "Name: Dune, Summary: about Dune");
}
