use askbend::{Corpus, QueryResult, StoredRecord};

fn record(content: &str, embedding: Vec<u32>) -> StoredRecord {
    StoredRecord { path: "p".to_string(), content: content.to_string(), embedding }
}

fn corpus_of(contents: &[&str]) -> Corpus {
    Corpus { records: contents.iter().map(|c| record(c, vec![1])).collect() }
}

fn pairs(results: &[QueryResult]) -> Vec<(&str, u32)> {
    results.iter().map(|r| (r.content.as_str(), r.distance)).collect()
}

fn embed(text: &str) -> Vec<f32> {
    let words = ["load", "data", "files", "fast", "cloud", "warehouse"];
    let lower = text.to_lowercase();
    words.iter().map(|w| if lower.contains(w) { 1.0 } else { 0.0 }).collect()
}

fn cosine_distance(a: &[f32], b: &[f32]) -> f32 {
    let dot: f32 = a.iter().zip(b).map(|(x, y)| x * y).sum();
    let na: f32 = a.iter().map(|x| x * x).sum::<f32>().sqrt();
    let nb: f32 = b.iter().map(|x| x * x).sum::<f32>().sqrt();
    1.0 - dot / (na * nb)
}

#[test]
fn retrieve_returns_the_closest_chunk() {
    let chunks = ["Databend is a cloud data warehouse.", "COPY INTO loads files fast."];
    let corpus = Corpus {
        records: chunks
            .iter()
            .map(|c| record(c, embed(c).iter().map(|x| x.to_bits()).collect()))
            .collect(),
    };
    let query = embed("fastest way to load data");
    let distances: Vec<u32> = chunks
        .iter()
        .map(|c| cosine_distance(&query, &embed(c)).to_bits())
        .collect();
    let query_bits: Vec<u32> = query.iter().map(|x| x.to_bits()).collect();
    let results = corpus.retrieve(&query_bits, &distances, 1, 0, None);
    assert_eq!(results.len(), 1);
    assert_eq!(results[0].content, "COPY INTO loads files fast.");
    assert_eq!(results[0].distance, distances[1]);
}

#[test]
fn retrieve_orders_by_distance_and_keeps_storage_order_on_ties() {
    let corpus = corpus_of(&["a", "b", "c", "d", "e"]);
    let distances = vec![30, 10, 20, 10, 30];
    let results = corpus.retrieve(&vec![1], &distances, 10, 0, None);
    assert_eq!(pairs(&results), vec![("b", 10), ("d", 10), ("c", 20), ("a", 30), ("e", 30)]);
    let results = corpus.retrieve(&vec![1], &distances, 3, 0, None);
    assert_eq!(pairs(&results), vec![("b", 10), ("d", 10), ("c", 20)]);
    let results = corpus.retrieve(&vec![1], &distances, 4, 0, None);
    assert_eq!(pairs(&results), vec![("b", 10), ("d", 10), ("c", 20), ("a", 30)]);
    assert!(corpus.retrieve(&vec![1], &distances, 0, 0, None).is_empty());
}

#[test]
fn retrieve_applies_the_ceiling_after_the_ranking() {
    let corpus = corpus_of(&["a", "b", "c", "d"]);
    let distances = vec![5, 50, 7, 60];
    let results = corpus.retrieve(&vec![1], &distances, 2, 0, Some(55));
    assert_eq!(pairs(&results), vec![("a", 5), ("c", 7)]);
    let results = corpus.retrieve(&vec![1], &distances, 3, 0, Some(6));
    assert_eq!(pairs(&results), vec![("a", 5)]);
    let results = corpus.retrieve(&vec![1], &distances, 3, 0, Some(7));
    assert_eq!(pairs(&results), vec![("a", 5), ("c", 7)]);
    assert!(corpus.retrieve(&vec![1], &distances, 3, 0, Some(4)).is_empty());
    for result in corpus.retrieve(&vec![1], &distances, 4, 0, Some(50)) {
        assert!(result.distance <= 50);
    }
}

#[test]
fn retrieve_without_a_query_embedding_is_empty() {
    let corpus = corpus_of(&["a", "b"]);
    assert!(corpus.retrieve(&vec![], &vec![1, 2], 5, 0, None).is_empty());
}

#[test]
fn retrieve_leaves_out_what_has_no_embedding_or_is_too_short() {
    let corpus = Corpus {
        records: vec![
            record("short", vec![1]),
            record("long enough", vec![]),
            record("long enough too", vec![1]),
            record("exactly 10", vec![1]),
            record("exactly 11!", vec![1]),
        ],
    };
    let distances = vec![1, 2, 3, 4, 5];
    let results = corpus.retrieve(&vec![1], &distances, 10, 10, None);
    assert_eq!(pairs(&results), vec![("long enough too", 3), ("exactly 11!", 5)]);
}

#[test]
fn retrieve_ignores_records_without_a_distance() {
    let corpus = corpus_of(&["a", "b", "c"]);
    let results = corpus.retrieve(&vec![1], &vec![9, 3], 10, 0, None);
    assert_eq!(pairs(&results), vec![("b", 3), ("a", 9)]);
    assert!(Corpus::new().retrieve(&vec![1], &vec![], 3, 0, None).is_empty());
}

#[test]
fn rank_gives_positions_nearest_first() {
    let corpus = corpus_of(&["a", "b", "c", "d"]);
    assert_eq!(corpus.rank(&vec![4, 3, 2, 1], 2, 0), vec![3, 2]);
    assert_eq!(corpus.rank(&vec![1, 1, 1, 1], 3, 0), vec![0, 1, 2]);
    assert_eq!(corpus.rank(&vec![2, 1, 2, 1], 4, 0), vec![1, 3, 0, 2]);
}

#[test]
fn distances_never_decrease_along_the_results() {
    let corpus = corpus_of(&["a", "b", "c", "d", "e", "f", "g", "h"]);
    let distances = vec![17, 3, 99, 3, 0, 45, 17, 8];
    for top_k in 0..10usize {
        let results = corpus.retrieve(&vec![1], &distances, top_k, 0, Some(45));
        assert!(results.len() <= top_k);
        for pair in results.windows(2) {
            assert!(pair[0].distance <= pair[1].distance);
        }
        for result in &results {
            assert!(result.distance <= 45);
        }
    }
}
