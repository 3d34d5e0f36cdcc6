use askbend::{SnippetFile, SnippetFiles};

fn files(items: &[(&str, &[&str])]) -> SnippetFiles {
    SnippetFiles {
        snippet_files: items
            .iter()
            .map(|(path, snippets)| SnippetFile {
                file_path: path.to_string(),
                code_snippets: snippets.iter().map(|s| s.to_string()).collect(),
            })
            .collect(),
    }
}

#[test]
fn all_snippets_adds_up_the_chunks() {
    assert_eq!(files(&[]).all_snippets(), 0);
    assert_eq!(files(&[("a", &[])]).all_snippets(), 0);
    assert_eq!(files(&[("a", &["x", "y"]), ("b", &[]), ("c", &["z"])]).all_snippets(), 3);
}

#[test]
fn all_tokens_adds_up_the_words() {
    assert_eq!(files(&[]).all_tokens(), 0);
    assert_eq!(files(&[("a", &["one two", " three "]), ("b", &["", "four\nfive\tsix"])]).all_tokens(), 6);
    let one = files(&[("a", &["fn main ( ) { }"])]);
    assert_eq!(one.snippet_files[0].tokens(), 6);
}
