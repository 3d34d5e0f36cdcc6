use askbend::qa::corpus::{EmbeddingAnswer, EmbeddingRequest};
use askbend::{Corpus, SnippetFile, SnippetFiles};

fn files(items: &[(&str, &[&str])]) -> SnippetFiles {
    SnippetFiles {
        snippet_files: items
            .iter()
            .map(|(path, snippets)| SnippetFile {
                file_path: path.to_string(),
                code_snippets: snippets.iter().map(|s| s.to_string()).collect(),
            })
            .collect(),
    }
}

fn request_pairs(requests: &[EmbeddingRequest]) -> Vec<(usize, String)> {
    requests.iter().map(|r| (r.index, r.text.clone())).collect()
}

#[test]
fn ingest_of_nothing_inserts_no_rows() {
    let mut corpus = Corpus::new();
    assert_eq!(corpus.ingest(&files(&[])), 0);
    assert!(corpus.records.is_empty());
    assert_eq!(corpus.ingest(&files(&[("a.md", &[])])), 0);
    assert!(corpus.records.is_empty());
}

#[test]
fn ingest_writes_one_record_for_each_chunk() {
    let mut corpus = Corpus::new();
    let inserted = corpus.ingest(&files(&[("a.md", &["one", "two"]), ("b.md", &["three"])]));
    assert_eq!(inserted, 3);
    let rows: Vec<(&str, &str, usize)> = corpus
        .records
        .iter()
        .map(|r| (r.path.as_str(), r.content.as_str(), r.embedding.len()))
        .collect();
    assert_eq!(rows, vec![("a.md", "one", 0), ("a.md", "two", 0), ("b.md", "three", 0)]);
    assert_eq!(corpus.ingest(&files(&[("c.md", &["four"])])), 1);
    assert_eq!(corpus.records.len(), 4);
    assert_eq!(corpus.records[3].path, "c.md");
    assert_eq!(corpus.records[0].content, "one");
}

#[test]
fn requests_cover_the_records_without_embedding() {
    let mut corpus = Corpus::new();
    corpus.ingest(&files(&[("a.md", &["hello world", "x"])]));
    corpus.store_embedding(1, vec![7]);
    let requests = corpus.embedding_requests(8);
    assert_eq!(request_pairs(&requests), vec![(0, "a.mdhell".to_string())]);
    let requests = corpus.embedding_requests(100);
    assert_eq!(request_pairs(&requests), vec![(0, "a.mdhello world".to_string())]);
    let requests = corpus.embedding_requests(0);
    assert_eq!(request_pairs(&requests), vec![(0, String::new())]);
}

#[test]
fn an_embedding_is_written_once() {
    let mut corpus = Corpus::new();
    corpus.ingest(&files(&[("a.md", &["one"])]));
    corpus.store_embedding(0, vec![1, 2]);
    corpus.store_embedding(0, vec![3, 4]);
    corpus.store_embedding(5, vec![9]);
    assert_eq!(corpus.records[0].embedding, vec![1, 2]);
    assert_eq!(corpus.records.len(), 1);
    assert_eq!(corpus.records[0].path, "a.md");
    assert_eq!(corpus.records[0].content, "one");
}

#[test]
fn a_failed_embedding_is_asked_for_again() {
    let mut corpus = Corpus::new();
    corpus.ingest(&files(&[("a.md", &["one", "two"])]));
    corpus.store_embeddings(&vec![
        EmbeddingAnswer { index: 0, embedding: vec![] },
        EmbeddingAnswer { index: 1, embedding: vec![5] },
    ]);
    let requests = corpus.embedding_requests(64);
    assert_eq!(request_pairs(&requests), vec![(0, "a.mdone".to_string())]);
}

#[test]
fn filling_twice_does_the_work_once() {
    let mut corpus = Corpus::new();
    corpus.ingest(&files(&[("a.md", &["one", "two"]), ("b.md", &["three"])]));
    let first = corpus.embedding_requests(64);
    assert_eq!(first.len(), 3);
    let answers: Vec<EmbeddingAnswer> = first
        .iter()
        .map(|r| EmbeddingAnswer { index: r.index, embedding: vec![r.text.len() as u32] })
        .collect();
    corpus.store_embeddings(&answers);
    let after: Vec<Vec<u32>> = corpus.records.iter().map(|r| r.embedding.clone()).collect();
    assert_eq!(after, vec![vec![7], vec![7], vec![9]]);
    let second = corpus.embedding_requests(64);
    assert!(second.is_empty());
    corpus.store_embeddings(&vec![EmbeddingAnswer { index: 1, embedding: vec![99] }]);
    let again: Vec<Vec<u32>> = corpus.records.iter().map(|r| r.embedding.clone()).collect();
    assert_eq!(again, after);
}

#[test]
fn a_rebuild_inserts_the_chunks_and_then_fills_the_embeddings() {
    let driver = askbend::DatabendDriver {
        database: "db".to_string(),
        table: "doc".to_string(),
        answer_table: String::new(),
        min_content_length: 0,
        max_content_length: 512,
        top: 1,
        min_distance: None,
        prompt_template: String::new(),
    };
    let rebuilder = askbend::QAEmbedding::create(&askbend::Config::default());
    let documents = vec![
        askbend::Document { path: "a.md".to_string(), content: "# T\n\nit's here\n".to_string() },
        askbend::Document { path: "b.md".to_string(), content: String::new() },
    ];
    let plan = rebuilder.rebuild(&driver, &documents);
    assert_eq!(
        plan.insert.unwrap(),
        "INSERT INTO db.doc (path, content) VALUES  ('a.md', 'it''s here ')"
    );
    assert_eq!(
        plan.embedding,
        "UPDATE db.doc SET embedding = ai_embedding_vector(left(concat(path, content),512)) WHERE length(embedding)=0"
    );
    assert!(plan.failed.is_empty());
    let nothing = rebuilder.rebuild(&driver, &[]);
    assert!(nothing.insert.is_none());
}
