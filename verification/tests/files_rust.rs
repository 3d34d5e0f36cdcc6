use askbend::files::rust::{extract_code_snippets, ItemKind, RustItem};
use askbend::{Document, RustCode};

fn item(kind: ItemKind, text: &str) -> RustItem {
    RustItem { kind, text: text.to_string() }
}

fn strings(items: &[&str]) -> Vec<String> {
    items.iter().map(|s| s.to_string()).collect()
}

#[test]
fn snippets_are_complete_at_the_minimum() {
    let items = vec![
        item(ItemKind::Fn, "aaaa"),
        item(ItemKind::Struct, "bb"),
        item(ItemKind::Other, "zzzzzzzzzzzz"),
        item(ItemKind::Impl, "cccccc"),
        item(ItemKind::Const, "d"),
    ];
    assert_eq!(extract_code_snippets(&items, 5), strings(&["aaaabb", "cccccc", "d"]));
    assert_eq!(extract_code_snippets(&items, 0), strings(&["aaaa", "bb", "cccccc", "d"]));
    assert_eq!(extract_code_snippets(&items, 1024), strings(&["aaaabbccccccd"]));
    assert!(extract_code_snippets(&Vec::new(), 5).is_empty());
}

#[test]
fn every_snippet_but_the_last_reaches_the_minimum() {
    let texts = ["fn a(){}", "struct B;", "enum C{}", "mod d{}", "const E:u8=1;", "type F=u8;"];
    let items: Vec<RustItem> = texts.iter().map(|t| item(ItemKind::Fn, t)).collect();
    for min in [0usize, 1, 7, 8, 9, 20, 1000] {
        let snippets = extract_code_snippets(&items, min);
        assert_eq!(snippets.concat(), texts.concat());
        if snippets.len() > 1 {
            for snippet in &snippets[..snippets.len() - 1] {
                assert!(snippet.chars().count() >= min);
            }
        }
    }
}

#[test]
fn parse_writes_the_tokens_of_each_declaration() {
    let source = "use std::fs;\nfn main() {}\nstruct A;\n";
    let code = RustCode::parse("src/main.rs", source).ok().unwrap();
    assert_eq!(code.path, "src/main.rs");
    assert_eq!(code.snippets, strings(&["fn main () { }struct A ;"]));
}

#[test]
fn parse_keeps_the_nine_kinds_and_drops_the_rest() {
    let source = "extern crate a; use b::c; macro_rules! m { () => {} } \
        fn f() {} struct S; enum E {} mod m {} const C: u8 = 1; static T: u8 = 2; \
        trait R {} impl S {} type A = u8; union U { a: u8 }";
    let code = RustCode::parse("lib.rs", source).ok().unwrap();
    assert_eq!(
        code.snippets,
        strings(&["fn f () { }struct S ;enum E { }mod m { }const C : u8 = 1 ;static T : u8 = 2 ;trait R { }impl S { }type A = u8 ;"])
    );
}

#[test]
fn parse_fails_as_a_unit_on_malformed_source() {
    let error = RustCode::parse("bad.rs", "fn broken( {").err().unwrap();
    assert_eq!(error.path, "bad.rs");
}

#[test]
fn parse_of_an_empty_file_has_no_snippets() {
    let code = RustCode::parse("empty.rs", "").ok().unwrap();
    assert!(code.snippets.is_empty());
}

#[test]
fn parse_multiple_skips_what_does_not_parse() {
    let docs = vec![
        Document { path: "a.rs".to_string(), content: "fn a() {}".to_string() },
        Document { path: "b.rs".to_string(), content: "fn (".to_string() },
        Document { path: "c.rs".to_string(), content: "struct C;".to_string() },
        Document { path: "d.rs".to_string(), content: "}".to_string() },
    ];
    let batch = RustCode::parse_multiple(&docs);
    let paths: Vec<&str> = batch.codes.rust_codes.iter().map(|c| c.path.as_str()).collect();
    assert_eq!(paths, vec!["a.rs", "c.rs"]);
    let failed: Vec<&str> = batch.failed.iter().map(|e| e.path.as_str()).collect();
    assert_eq!(failed, vec!["b.rs", "d.rs"]);
    assert_eq!(batch.codes.rust_codes[1].snippets, strings(&["struct C ;"]));
}

#[test]
fn long_sources_are_cut_at_1024_characters() {
    let mut source = String::new();
    for i in 0..40 {
        source.push_str(&format!("fn function_number_{}() {{ let value = {}; }}\n", i, i));
    }
    let code = RustCode::parse("long.rs", &source).ok().unwrap();
    assert!(code.snippets.len() > 1);
    for snippet in &code.snippets[..code.snippets.len() - 1] {
        assert!(snippet.chars().count() >= 1024);
    }
}
