use askbend::qa::answer::{reply, AnswerAction, AnswerEvent, AnswerState, Section};
use askbend::DatabendDriver;

fn driver(answer_table: &str) -> DatabendDriver {
    DatabendDriver {
        database: "db".to_string(),
        table: "doc".to_string(),
        answer_table: answer_table.to_string(),
        min_content_length: 10,
        max_content_length: 100,
        top: 2,
        min_distance: Some("0.3".to_string()),
        prompt_template: "Context: {{context}} Question: {{query}}".to_string(),
    }
}

fn section(content: &str, distance: &str) -> Section {
    Section { content: content.to_string(), distance: distance.to_string() }
}

fn statement(action: AnswerAction) -> String {
    match action {
        AnswerAction::QueryRow(sql) => format!("row:{}", sql),
        AnswerAction::QueryRows(sql) => format!("rows:{}", sql),
        AnswerAction::Execute(sql) => format!("exec:{}", sql),
        AnswerAction::Reply(text) => format!("reply:{}", text),
        AnswerAction::Fail => "fail".to_string(),
    }
}

#[test]
fn reply_falls_back_on_an_empty_answer() {
    assert_eq!(reply(String::new()), "Sorry, I dont know how to help with that.");
    assert_eq!(reply("42".to_string()), "42");
}

#[test]
fn a_query_is_answered_step_by_step() {
    let d = driver("answers");
    let (state, action) = d.query("how's it?", Some("2023-01-02 03:04:05".to_string()));
    assert_eq!(statement(action), "row:SELECT ai_embedding_vector('how''s it?')");

    let (state, action) = d.advance(state, AnswerEvent::Embedding("[1,2]".to_string()));
    assert_eq!(
        statement(action),
        "rows:SELECT content, distance FROM (SELECT content, cosine_distance([1,2], embedding) AS distance FROM db.doc WHERE length(embedding) > 0 AND length(content)>10 ORDER BY distance ASC LIMIT 2) WHERE distance <=0.3"
    );

    let sections = vec![section("first [doc](http://d)", "0.1"), section("second", "0.2")];
    let (state, action) = d.advance(state, AnswerEvent::Sections(sections));
    assert_eq!(
        statement(action),
        "row:SELECT ai_text_completion('Context: first doc second Question: how''s it?')"
    );

    let (state, action) = d.advance(state, AnswerEvent::Completion("fine".to_string()));
    assert_eq!(
        statement(action),
        "exec:INSERT INTO db.answers (question, prompt, similar_distances, similar_sections, answer, ts) VALUES ('how''s it?','Context: first doc second Question: how''s it?', [0.1, 0.2], 'first doc second', 'fine', '2023-01-02 03:04:05')"
    );

    let (state, action) = d.advance(state, AnswerEvent::Audited(true));
    assert_eq!(statement(action), "reply:fine");
    assert!(matches!(state, AnswerState::Done));
}

#[test]
fn an_empty_embedding_ends_with_the_fallback() {
    let d = driver("answers");
    let (state, _) = d.query("q", None);
    let (state, action) = d.advance(state, AnswerEvent::Embedding(String::new()));
    assert_eq!(statement(action), "reply:Sorry, I dont know how to help with that.");
    assert!(matches!(state, AnswerState::Done));
}

#[test]
fn no_sections_skip_the_completion() {
    let d = driver("answers");
    let (state, _) = d.query("q", None);
    let (state, _) = d.advance(state, AnswerEvent::Embedding("[1]".to_string()));
    let (state, action) = d.advance(state, AnswerEvent::Sections(Vec::new()));
    assert_eq!(
        statement(action),
        "exec:INSERT INTO db.answers (question, prompt, similar_distances, similar_sections, answer) VALUES ('q','', [], '', '')"
    );
    let (state, action) = d.advance(state, AnswerEvent::Audited(true));
    assert_eq!(statement(action), "reply:Sorry, I dont know how to help with that.");
    assert!(matches!(state, AnswerState::Done));

    let quiet = driver("");
    let (state, _) = quiet.query("q", None);
    let (state, _) = quiet.advance(state, AnswerEvent::Embedding("[1]".to_string()));
    let (state, action) = quiet.advance(state, AnswerEvent::Sections(Vec::new()));
    assert_eq!(statement(action), "reply:Sorry, I dont know how to help with that.");
    assert!(matches!(state, AnswerState::Done));
}

#[test]
fn without_an_answer_table_the_completion_is_the_reply() {
    let d = driver("");
    let (state, _) = d.query("q", None);
    let (state, _) = d.advance(state, AnswerEvent::Embedding("[1]".to_string()));
    let (state, _) = d.advance(state, AnswerEvent::Sections(vec![section("s", "0.1")]));
    let (state, action) = d.advance(state, AnswerEvent::Completion("done".to_string()));
    assert_eq!(statement(action), "reply:done");
    assert!(matches!(state, AnswerState::Done));
}

#[test]
fn a_failed_audit_still_replies() {
    let d = driver("answers");
    let (state, _) = d.query("q", None);
    let (state, _) = d.advance(state, AnswerEvent::Embedding("[1]".to_string()));
    let (state, _) = d.advance(state, AnswerEvent::Sections(vec![section("s", "0.1")]));
    let (state, _) = d.advance(state, AnswerEvent::Completion("done".to_string()));
    let (state, action) = d.advance(state, AnswerEvent::Audited(false));
    assert_eq!(statement(action), "reply:done");
    assert!(matches!(state, AnswerState::Done));

    let (state, _) = d.query("q", None);
    let (state, _) = d.advance(state, AnswerEvent::Embedding("[1]".to_string()));
    let (state, _) = d.advance(state, AnswerEvent::Sections(vec![section("s", "0.1")]));
    let (state, _) = d.advance(state, AnswerEvent::Completion(String::new()));
    let (_, action) = d.advance(state, AnswerEvent::Failed);
    assert_eq!(statement(action), "reply:Sorry, I dont know how to help with that.");
}

#[test]
fn a_failing_store_fails_the_query() {
    let d = driver("answers");
    let (state, _) = d.query("q", None);
    let (state, action) = d.advance(state, AnswerEvent::Failed);
    assert_eq!(statement(action), "fail");
    assert!(matches!(state, AnswerState::Done));

    let (state, _) = d.query("q", None);
    let (state, _) = d.advance(state, AnswerEvent::Embedding("[1]".to_string()));
    let (_, action) = d.advance(state, AnswerEvent::Failed);
    assert_eq!(statement(action), "fail");
}

#[test]
fn an_event_out_of_turn_fails_the_query() {
    let d = driver("answers");
    let (state, _) = d.query("q", None);
    let (state, action) = d.advance(state, AnswerEvent::Completion("x".to_string()));
    assert_eq!(statement(action), "fail");
    let (_, action) = d.advance(state, AnswerEvent::Embedding("[1]".to_string()));
    assert_eq!(statement(action), "fail");
}

#[test]
fn the_recorded_context_is_the_one_that_was_put_in() {
    let mut d = driver("answers");
    d.prompt_template = "{{context}}|{{query}}".to_string();
    let long: String = std::iter::repeat('y').take(9000).collect();
    let (state, _) = d.query("q", None);
    let (state, _) = d.advance(state, AnswerEvent::Embedding("[1]".to_string()));
    let (state, _) = d.advance(state, AnswerEvent::Sections(vec![section(&long, "0.1")]));
    match &state {
        AnswerState::AwaitingCompletion { prompt, context, distances, .. } => {
            assert_eq!(context.chars().count(), 8192 - 21);
            assert_eq!(prompt.chars().count(), 8192 - 21 + 2);
            assert_eq!(distances, &vec!["0.1".to_string()]);
        }
        _ => panic!("the completion should be awaited"),
    }
}
