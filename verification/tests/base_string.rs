use askbend::base::string::count_tokens;
use askbend::base::string::substitute;
use askbend::base::string::{contains_text, same_text};
use askbend::escape_sql_string;
use askbend::remove_markdown_links;
use askbend::replace_multiple_spaces;
use askbend::LengthWithoutSymbols;

#[test]
fn test_remove_markdown_links() {
    let markdown_content = "This is an [inline link](https://www.example.com), an ![image](https://www.example.com/image.png), and a [reference link][1].\n\n[1]: https://www.example.org";
    let expected_output = "This is an inline link, an !image, and a [reference link][1].\n\n[1]: https://www.example.org";
    let result = remove_markdown_links(markdown_content);
    assert_eq!(result, expected_output);
}

#[test]
fn remove_markdown_links_keeps_link_text() {
    assert_eq!(remove_markdown_links("an [inline](http://x) link"), "an inline link");
}

#[test]
fn remove_markdown_links_leaves_plain_text() {
    assert_eq!(remove_markdown_links("no links here"), "no links here");
    assert_eq!(remove_markdown_links(""), "");
    assert_eq!(remove_markdown_links("[] () [a]()"), "[] () [a]()");
}

#[test]
fn remove_markdown_links_handles_several_links() {
    assert_eq!(remove_markdown_links("[a](b)[c](d) ![e](f)"), "ac !e");
}

#[test]
fn replace_multiple_spaces_collapses_runs() {
    assert_eq!(replace_multiple_spaces("a  b   c d"), "a b c d");
    assert_eq!(replace_multiple_spaces("   "), " ");
    assert_eq!(replace_multiple_spaces("a\t\tb"), "a\t\tb");
    assert_eq!(replace_multiple_spaces(""), "");
}

#[test]
fn escape_sql_string_escapes_each_special_character() {
    assert_eq!(escape_sql_string("a\\b"), "a\\\\b");
    assert_eq!(escape_sql_string("it's"), "it''s");
    assert_eq!(escape_sql_string("line1\nline2"), "line1 line2");
    assert_eq!(escape_sql_string("a\rb"), "a\\rb");
    assert_eq!(escape_sql_string("plain"), "plain");
    assert_eq!(escape_sql_string(""), "");
}

#[test]
fn escape_sql_string_agrees_with_chained_replaces() {
    let inputs = ["\\'\n\r", "''\\\\", "x\r\ny", "caf\u{e9} 'd\u{e9}j\u{e0}'", "\\r\\n"];
    for input in inputs {
        let expected = input
            .replace('\\', "\\\\")
            .replace('\'', "''")
            .replace('\n', " ")
            .replace('\r', "\\r");
        assert_eq!(escape_sql_string(input), expected);
    }
}

#[test]
fn escaped_text_has_no_raw_line_break_and_paired_quotes() {
    let out = escape_sql_string("a'b\nc\rd\\");
    assert!(!out.contains('\n'));
    assert!(!out.contains('\r'));
    assert_eq!(out, "a''b c\\rd\\\\");
}

#[test]
fn length_without_symbols_counts_letters_digits_and_space() {
    assert_eq!("Hello, World! 123".to_string().length_without_symbols(), 15);
    assert_eq!("".to_string().length_without_symbols(), 0);
    assert_eq!("!!!".to_string().length_without_symbols(), 0);
    assert_eq!("\u{e9}t\u{e9}\n".to_string().length_without_symbols(), 4);
}

#[test]
fn count_tokens_agrees_with_split_whitespace() {
    let inputs = ["", " ", "one", "  one  two\tthree\n", "a b c d e", "\u{a0}x\u{a0}y"];
    for input in inputs {
        assert_eq!(count_tokens(input), input.split_whitespace().count());
    }
    assert_eq!(count_tokens("fn main ( ) { }"), 6);
}

#[test]
fn substitute_replaces_every_occurrence_from_the_left() {
    assert_eq!(substitute("a{{x}}b{{x}}", "{{x}}", "1"), "a1b1");
    assert_eq!(substitute("aaa", "aa", "b"), "ba");
    assert_eq!(substitute("abc", "", "x"), "abc");
    assert_eq!(substitute("", "a", "x"), "");
    assert_eq!(substitute("abc", "abc", ""), "");
    assert_eq!(substitute("xax", "a", "aa"), "xaax");
}

#[test]
fn substitute_agrees_with_replace_for_markers() {
    let cases = [("Q: {{query}} C: {{context}}", "{{query}}", "why?"), ("{{{{q}}}}", "{{q}}", "{{q}}")];
    for (text, marker, value) in cases {
        assert_eq!(substitute(text, marker, value), text.replace(marker, value));
    }
}

#[test]
fn contains_text_finds_parts() {
    assert!(contains_text("target", "arg"));
    assert!(contains_text("target", ""));
    assert!(contains_text("", ""));
    assert!(!contains_text("target", "tar get"));
    assert!(!contains_text("ab", "abc"));
    assert!(contains_text("abc", "bc"));
}

#[test]
fn same_text_compares_characters() {
    assert!(same_text("md", "md"));
    assert!(!same_text("md", "MD"));
    assert!(!same_text("md", "mdx"));
    assert!(same_text("", ""));
}
