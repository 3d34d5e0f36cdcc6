use askbend::qa::prompt::{compose, cut_context, fill_template, join, truncate_chars, HARD_CHAR_BUDGET};

fn strings(items: &[&str]) -> Vec<String> {
    items.iter().map(|s| s.to_string()).collect()
}

#[test]
fn join_puts_the_separator_between_neighbours() {
    assert_eq!(join(&strings(&["a", "b", "c"]), " "), "a b c");
    assert_eq!(join(&strings(&["a"]), ", "), "a");
    assert_eq!(join(&strings(&[]), ", "), "");
    assert_eq!(join(&strings(&["", ""]), "-"), "-");
}

#[test]
fn truncate_chars_cuts_hard() {
    assert_eq!(truncate_chars("hello world", 5), "hello");
    assert_eq!(truncate_chars("hello", 5), "hello");
    assert_eq!(truncate_chars("hello", 50), "hello");
    assert_eq!(truncate_chars("hello", 0), "");
    assert_eq!(truncate_chars("h\u{e9}llo", 2), "h\u{e9}");
}

#[test]
fn the_default_budget_is_8192() {
    assert_eq!(HARD_CHAR_BUDGET, 8192);
}

#[test]
fn cut_context_leaves_room_for_the_template() {
    assert_eq!(cut_context("12345", "abcdefghij", 8), "abc");
    assert_eq!(cut_context("12345", "abcdefghij", 5), "");
    assert_eq!(cut_context("12345", "abcdefghij", 3), "");
    assert_eq!(cut_context("12345", "abc", 100), "abc");
}

#[test]
fn fill_template_puts_in_context_and_query() {
    let template = "Use {{context}} to answer {{query}}.";
    assert_eq!(
        fill_template(template, "the docs", "how?", 8192),
        "Use the docs to answer how?."
    );
    assert_eq!(fill_template(template, "the docs", "how?", 40), "Use the  to answer how?.");
    assert_eq!(fill_template(template, "the docs", "how?", 36), "Use  to answer how?.");
    assert_eq!(fill_template(template, "the docs", "how?", 0), "Use  to answer how?.");
    assert_eq!(fill_template("no markers", "c", "q", 100), "no markers");
}

#[test]
fn fill_template_replaces_query_markers_that_the_context_brought() {
    assert_eq!(fill_template("{{context}}|{{query}}", "see {{query}}", "Q", 100), "see Q|Q");
}

#[test]
fn compose_joins_strips_links_and_fills() {
    let template = "Context: {{context}}\nQuestion: {{query}}";
    let chunks = strings(&["See [the guide](http://g) first.", "COPY INTO loads files."]);
    assert_eq!(
        compose(template, "how to load?", &chunks, 8192),
        "Context: See the guide first. COPY INTO loads files.\nQuestion: how to load?"
    );
}

#[test]
fn compose_cuts_the_context_to_the_budget() {
    let template = "C={{context}};Q={{query}}";
    let chunks = strings(&["abcdefghij", "klmnopqrst"]);
    let prompt = compose(template, "q", &chunks, 30);
    assert_eq!(prompt, "C=abcde;Q=q");
    assert_eq!(compose(template, "q", &strings(&[]), 30), "C=;Q=q");
}

#[test]
fn template_and_context_stay_within_the_budget() {
    let template = "Answer from: {{context}} -- {{query}}";
    let long: String = std::iter::repeat('x').take(20000).collect();
    let query = "what?";
    for budget in [37usize, 38, 100, 8192] {
        let prompt = compose(template, query, &vec![long.clone()], budget);
        let markers = "{{context}}".len() + "{{query}}".len();
        assert_eq!(prompt.chars().count(), budget - markers + query.len());
        assert!(prompt.chars().count() <= budget + query.len());
    }
}
