use askbend::dal::db::write_value_tuple;
use askbend::{DatabendDriver, SnippetFile, SnippetFiles};

fn driver() -> DatabendDriver {
    DatabendDriver {
        database: "askbend".to_string(),
        table: "doc".to_string(),
        answer_table: "answer".to_string(),
        min_content_length: 300,
        max_content_length: 8000,
        top: 3,
        min_distance: Some("0.28".to_string()),
        prompt_template: "{{context}} {{query}}".to_string(),
    }
}

fn files(items: &[(&str, &[&str])]) -> SnippetFiles {
    SnippetFiles {
        snippet_files: items
            .iter()
            .map(|(path, snippets)| SnippetFile {
                file_path: path.to_string(),
                code_snippets: snippets.iter().map(|s| s.to_string()).collect(),
            })
            .collect(),
    }
}

#[test]
fn value_tuple_quotes_both_literals() {
    assert_eq!(write_value_tuple("a.md", "text"), "('a.md', 'text')");
    assert_eq!(write_value_tuple("", ""), "('', '')");
}

#[test]
fn insert_writes_one_entry_for_each_chunk() {
    let values = files(&[("doc/a'b.md", &["it's [here](http://x)\nnow", "two"]), ("c.md", &["3"])]);
    let sql = driver().insert(&values).unwrap();
    assert_eq!(
        sql,
        "INSERT INTO askbend.doc (path, content) VALUES  ('doc/a''b.md', 'it''s here now'),('doc/a''b.md', 'two'),('c.md', '3')"
    );
}

#[test]
fn insert_of_nothing_writes_no_statement() {
    assert!(driver().insert(&files(&[])).is_none());
    assert!(driver().insert(&files(&[("a.md", &[])])).is_none());
    assert!(driver().insert_sql(&Vec::new()).is_none());
    assert!(driver().insert_values(&files(&[])).is_empty());
}

#[test]
fn embedding_statement_touches_only_empty_embeddings() {
    assert_eq!(
        driver().embedding(),
        "UPDATE askbend.doc SET embedding = ai_embedding_vector(left(concat(path, content),8000)) WHERE length(embedding)=0"
    );
}

#[test]
fn embedding_and_completion_queries_escape_the_text() {
    assert_eq!(driver().get_embedding("what's new?"), "SELECT ai_embedding_vector('what''s new?')");
    assert_eq!(
        driver().get_completion("a\\b\nc"),
        "SELECT ai_text_completion('a\\\\b c')"
    );
}

#[test]
fn similar_sections_are_ranked_before_the_ceiling() {
    assert_eq!(
        driver().get_similar_sections("[0.1,0.2]"),
        "SELECT content, distance FROM (SELECT content, cosine_distance([0.1,0.2], embedding) AS distance FROM askbend.doc WHERE length(embedding) > 0 AND length(content)>300 ORDER BY distance ASC LIMIT 3) WHERE distance <=0.28"
    );
    let mut open = driver();
    open.min_distance = None;
    open.top = 0;
    open.min_content_length = 0;
    assert_eq!(
        open.get_similar_sections("[1]"),
        "SELECT content, distance FROM (SELECT content, cosine_distance([1], embedding) AS distance FROM askbend.doc WHERE length(embedding) > 0 AND length(content)>0 ORDER BY distance ASC LIMIT 0)"
    );
}

#[test]
fn insert_answer_records_the_whole_interaction() {
    let distances = vec!["0.1".to_string(), "0.25".to_string()];
    let sql = driver()
        .insert_answer("q'1", "the prompt", &distances, "sec\ntions", "an answer", None)
        .unwrap();
    assert_eq!(
        sql,
        "INSERT INTO askbend.answer (question, prompt, similar_distances, similar_sections, answer) VALUES ('q''1','the prompt', [0.1, 0.25], 'sec tions', 'an answer')"
    );
    let sql = driver()
        .insert_answer("q", "p", &Vec::new(), "", "", Some("2023-07-01 12:00:00"))
        .unwrap();
    assert_eq!(
        sql,
        "INSERT INTO askbend.answer (question, prompt, similar_distances, similar_sections, answer, ts) VALUES ('q','p', [], '', '', '2023-07-01 12:00:00')"
    );
}

#[test]
fn insert_answer_without_a_table_writes_nothing() {
    let mut quiet = driver();
    quiet.answer_table = String::new();
    assert!(quiet.insert_answer("q", "p", &Vec::new(), "s", "a", None).is_none());
}

#[test]
fn numbers_are_written_in_base_ten() {
    let mut d = driver();
    d.max_content_length = 0;
    assert!(d.embedding().contains("content),0))"));
    d.max_content_length = 10;
    assert!(d.embedding().contains("content),10))"));
    d.max_content_length = 1234567890;
    assert!(d.embedding().contains("content),1234567890))"));
    d.max_content_length = usize::MAX;
    assert!(d.embedding().contains(&format!("content),{}))", usize::MAX)));
}

#[test]
fn stripping_links_before_or_after_escaping_gives_the_same_entry() {
    let snippets = [
        "[a'b](http://x/'y') and [c\\d](e\\f)",
        "[line\nbreak](u\nrl) [cr\r](x)",
        "[a]\n(b) [](c) [d]() ((e)) [[f]](g)",
        "![img](p'q.png) \\[not](a link\\) 'quoted' [x\\](y)",
        "plain 'text' with \\ and \n only",
        "",
    ];
    for snippet in snippets {
        let values = files(&[("p", &[snippet])]);
        let tuples = driver().insert_values(&values);
        let after = askbend::remove_markdown_links(&askbend::escape_sql_string(snippet));
        assert_eq!(tuples, vec![format!("('p', '{}')", after)]);
    }
}
