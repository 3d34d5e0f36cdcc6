use askbend::llm::qa::Similarity;
use askbend::BendLLM;

fn similar(content: &str, path: &str) -> Similarity {
    Similarity { content: content.to_string(), path: path.to_string() }
}

#[test]
fn contexts_name_content_and_source() {
    let out = BendLLM::contexts(&vec![similar("c1", "a.md"), similar("c2", "b.md")]);
    assert_eq!(out, "context:c1\nsource:a.mdcontext:c2\nsource:b.md");
    assert_eq!(BendLLM::contexts(&Vec::new()), "");
    assert_eq!(BendLLM::contexts(&vec![similar("", "")]), "context:\nsource:");
}

#[test]
fn instructions_are_six_and_forbid_links() {
    let list = BendLLM::instructions();
    assert_eq!(list.len(), 6);
    assert_eq!(list[1], "Do not include any links or external references in your response.\n");
    assert_eq!(list[5], "Make the whole answer as short as possible to keep the code snippets.\n");
    assert!(list[0].starts_with("Present your answer in markdown format"));
}
