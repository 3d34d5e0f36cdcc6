use askbend::files::markdown::{coalesce, split, split_blocks, split_sections, Block};
use askbend::{Document, Markdown, Parse};

fn block(heading: bool, text: &str) -> Block {
    Block { heading, text: text.to_string() }
}

fn strings(items: &[&str]) -> Vec<String> {
    items.iter().map(|s| s.to_string()).collect()
}

#[test]
fn test_markdown_files() {
    let docs = vec![Document {
        path: "tests/testdata/hash.md".to_string(),
        content: "# Hash\n\nHash functions map data to a number.\n\n## SIPHASH\n\nReturns a 64-bit hash.\n".to_string(),
    }];
    let markdowns = Markdown::parse_multiple(&docs);
    assert!(markdowns.failed.is_empty());
    assert_eq!(markdowns.files.snippet_files.len(), 1);
    for markdown in &markdowns.files.snippet_files {
        assert_eq!(markdown.file_path, "tests/testdata/hash.md");
        for section in &markdown.code_snippets {
            println!("--{:?}", section);
        }
    }
}

#[test]
fn test_markdown_sections() {
    let docs = vec![Document {
        path: "tests/testdata/1.md".to_string(),
        content: "# One\n\nfirst\n\n# Two\n\nsecond\n".to_string(),
    }];
    let markdowns = Markdown::parse_multiple(&docs);
    for markdown in &markdowns.files.snippet_files {
        assert_eq!(markdown.file_path, "tests/testdata/1.md");
        for section in &markdown.code_snippets {
            println!("--{:?}", section);
        }
    }
    assert_eq!(markdowns.files.snippet_files[0].code_snippets, strings(&["first\nsecond\n"]));
}

#[test]
fn empty_document_has_no_chunks() {
    assert!(split("", true, 1024).is_empty());
    assert!(split("", false, 0).is_empty());
    let file = Markdown::parse("empty.md", "").ok().unwrap();
    assert_eq!(file.file_path, "empty.md");
    assert!(file.code_snippets.is_empty());
}

#[test]
fn document_of_headings_only_has_no_chunks() {
    assert!(split("# A\n\n## B\n", true, 1024).is_empty());
}

#[test]
fn document_without_headings_is_one_chunk() {
    let chunks = split("alpha\n\nbeta\n", true, 0);
    assert_eq!(chunks, strings(&["alpha\nbeta\n"]));
}

#[test]
fn headings_cut_sections_when_sections_are_long_enough() {
    let text = "intro\n\n# A\n\naaaa\n\n# B\n\nbbbb\n";
    assert_eq!(split(text, true, 0), strings(&["intro\n", "aaaa\n", "bbbb\n"]));
    assert_eq!(split(text, true, 1024), strings(&["intro\naaaa\nbbbb\n"]));
    assert_eq!(split(text, false, 0), strings(&["intro\naaaa\nbbbb\n"]));
}

#[test]
fn sections_follow_headings() {
    let blocks = vec![
        block(false, "a"),
        block(false, "b"),
        block(true, "# h"),
        block(true, "# i"),
        block(false, "c"),
        block(true, "# j"),
    ];
    assert_eq!(split_sections(&blocks, true), strings(&["ab", "c"]));
    assert_eq!(split_sections(&blocks, false), strings(&["abc"]));
    assert!(split_sections(&Vec::new(), true).is_empty());
}

#[test]
fn coalesce_merges_while_under_the_minimum() {
    let sections = strings(&["aaa", "bbb", "cccc", "d"]);
    assert_eq!(coalesce(&sections, 7), strings(&["aaabbb", "ccccd"]));
    assert_eq!(coalesce(&sections, 0), strings(&["aaa", "bbb", "cccc", "d"]));
    assert_eq!(coalesce(&sections, 100), strings(&["aaabbbccccd"]));
    assert!(coalesce(&Vec::new(), 10).is_empty());
}

#[test]
fn coalesce_sends_out_a_short_chunk_before_a_long_section() {
    let sections = strings(&["abc", "01234567890123456789"]);
    assert_eq!(coalesce(&sections, 10), strings(&["abc", "01234567890123456789"]));
}

#[test]
fn coalesce_counts_characters() {
    let sections = strings(&["\u{e9}\u{e9}", "\u{e9}\u{e9}"]);
    assert_eq!(coalesce(&sections, 5), strings(&["\u{e9}\u{e9}\u{e9}\u{e9}"]));
    assert_eq!(coalesce(&sections, 4), strings(&["\u{e9}\u{e9}", "\u{e9}\u{e9}"]));
}

#[test]
fn chunks_keep_the_text_in_order() {
    let blocks = vec![
        block(false, "one "),
        block(true, "# h"),
        block(false, "two "),
        block(false, "three "),
        block(true, "# i"),
        block(false, "four"),
    ];
    for min in [0usize, 3, 5, 8, 11, 100] {
        let chunks = split_blocks(&blocks, true, min);
        assert_eq!(chunks.concat(), "one two three four");
        for chunk in &chunks {
            assert!(!chunk.is_empty());
        }
    }
}

#[test]
fn all_but_the_last_chunk_reach_the_minimum_when_sections_are_long() {
    let sections = strings(&["aaaaa", "bbbbbb", "ccccccc", "dd"]);
    let chunks = coalesce(&sections, 5);
    assert_eq!(chunks, strings(&["aaaaa", "bbbbbb", "ccccccc", "dd"]));
    for chunk in &chunks[..chunks.len() - 1] {
        assert!(chunk.chars().count() >= 5);
    }
}

#[test]
fn parse_multiple_keeps_input_order() {
    let docs = vec![
        Document { path: "a.md".to_string(), content: "x\n".to_string() },
        Document { path: "b.md".to_string(), content: "".to_string() },
        Document { path: "c.md".to_string(), content: "# T\n\ny\n".to_string() },
    ];
    let batch = Markdown::parse_multiple(&docs);
    assert!(batch.failed.is_empty());
    let paths: Vec<&str> = batch.files.snippet_files.iter().map(|f| f.file_path.as_str()).collect();
    assert_eq!(paths, vec!["a.md", "b.md", "c.md"]);
    assert_eq!(batch.files.snippet_files[0].code_snippets, strings(&["x\n"]));
    assert!(batch.files.snippet_files[1].code_snippets.is_empty());
    assert_eq!(batch.files.snippet_files[2].code_snippets, strings(&["y\n"]));
    assert_eq!(batch.files.all_snippets(), 2);
    assert_eq!(batch.files.all_tokens(), 2);
}
