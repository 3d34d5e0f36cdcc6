use crate::base::string::{remove_markdown_links, substitute};
use crate::dal::db::{
    answer_statement, completion_query, embedding_query, similar_sections_query, DatabendDriver,
};
use crate::files::parse::texts;
use crate::qa::prompt::{
    available, composed, context_of, cut_context, join, truncated, HARD_CHAR_BUDGET,
};
use vstd::prelude::*;

verus! {

/// One retrieved section as the store hands it back: its content and its
/// distance, written as the store writes it.
pub struct Section {
    pub content: String,
    pub distance: String,
}

/// Where the answering of one query stands.
pub enum AnswerState {
    /// The embedding of the query has been asked for.
    AwaitingEmbedding { query: String, timestamp: Option<String> },
    /// The similar sections have been asked for.
    AwaitingSections { query: String, timestamp: Option<String> },
    /// The completion of the prompt has been asked for.
    AwaitingCompletion {
        query: String,
        timestamp: Option<String>,
        prompt: String,
        context: String,
        distances: Vec<String>,
    },
    /// The audit record is being written.
    AwaitingAudit { answer: String },
    /// The query has been answered, or has failed.
    Done,
}

/// What came back from the outside.
pub enum AnswerEvent {
    /// The embedding of the query as text; empty where there is none.
    Embedding(String),
    /// The retrieved sections, nearest first.
    Sections(Vec<Section>),
    /// The completion of the prompt; empty where there is none.
    Completion(String),
    /// The audit record was written, or could not be.
    Audited(bool),
    /// The store failed to answer.
    Failed,
}

/// What to do next.
pub enum AnswerAction {
    /// Run the statement and hand back the text of its one row.
    QueryRow(String),
    /// Run the statement and hand back all of its rows.
    QueryRows(String),
    /// Run the statement that writes the audit record.
    Execute(String),
    /// Answer the caller.
    Reply(String),
    /// Tell the caller that the store failed.
    Fail,
}

/// The reply given when there is nothing to ground an answer on.
pub open spec fn fallback_reply() -> Seq<char> {
    "Sorry, I dont know how to help with that."@
}

/// The reply for an answer: the answer itself, or the fallback where it is
/// empty.
pub open spec fn reply_for(answer: Seq<char>) -> Seq<char> {
    if answer.len() == 0 {
        fallback_reply()
    } else {
        answer
    }
}

/// The text of an optional string.
pub open spec fn optional_text(text: Option<String>) -> Option<Seq<char>> {
    match text {
        Some(t) => Some(t@),
        None => None,
    }
}

/// The contents of a run of sections.
pub open spec fn contents_of(sections: Seq<Section>) -> Seq<Seq<char>> {
    Seq::new(sections.len(), |i: int| sections[i].content@)
}

/// The distances of a run of sections.
pub open spec fn distances_of(sections: Seq<Section>) -> Seq<Seq<char>> {
    Seq::new(sections.len(), |i: int| sections[i].distance@)
}

/// The context that is put into the prompt and recorded with the answer:
/// the retrieved contents joined and stripped of links, cut to the room
/// that the template leaves under the budget.
pub open spec fn recorded_context(template: Seq<char>, contents: Seq<Seq<char>>, budget: nat) -> Seq<
    char,
> {
    truncated(context_of(contents), available(template.len(), budget))
}

/// Whether `action` closes the answering with the audit: it writes the
/// record where an answer table is set, and replies at once where none is.
pub open spec fn audits_or_replies(
    driver: DatabendDriver,
    query: Seq<char>,
    timestamp: Option<Seq<char>>,
    prompt: Seq<char>,
    distances: Seq<Seq<char>>,
    context: Seq<char>,
    answer: Seq<char>,
    next: AnswerState,
    action: AnswerAction,
) -> bool {
    if driver.answer_table@.len() == 0 {
        &&& next is Done
        &&& action matches AnswerAction::Reply(text)
        &&& text@ == reply_for(answer)
    } else {
        &&& next matches AnswerState::AwaitingAudit { answer: kept }
        &&& kept@ == answer
        &&& action matches AnswerAction::Execute(sql)
        &&& sql@ == answer_statement(
            driver.database@,
            driver.answer_table@,
            query,
            prompt,
            distances,
            context,
            answer,
            timestamp,
        )
    }
}

/// Whether `next` and `action` are what follows from `state` on `event`.
pub open spec fn answer_step(
    driver: DatabendDriver,
    state: AnswerState,
    event: AnswerEvent,
    next: AnswerState,
    action: AnswerAction,
) -> bool {
    match (state, event) {
        (AnswerState::AwaitingEmbedding { query, timestamp }, AnswerEvent::Embedding(embedding)) => {
            if embedding@.len() == 0 {
                &&& next is Done
                &&& action matches AnswerAction::Reply(text)
                &&& text@ == fallback_reply()
            } else {
                &&& next matches AnswerState::AwaitingSections { query: q, timestamp: t }
                &&& q@ == query@
                &&& optional_text(t) == optional_text(timestamp)
                &&& action matches AnswerAction::QueryRows(sql)
                &&& sql@ == similar_sections_query(
                    embedding@,
                    driver.database@,
                    driver.table@,
                    driver.min_content_length as nat,
                    driver.top as nat,
                    optional_text(driver.min_distance),
                )
            }
        },
        (AnswerState::AwaitingSections { query, timestamp }, AnswerEvent::Sections(sections)) => {
            if sections@.len() == 0 {
                audits_or_replies(
                    driver,
                    query@,
                    optional_text(timestamp),
                    Seq::empty(),
                    Seq::empty(),
                    Seq::empty(),
                    Seq::empty(),
                    next,
                    action,
                )
            } else {
                &&& next matches AnswerState::AwaitingCompletion {
                    query: q,
                    timestamp: t,
                    prompt,
                    context,
                    distances,
                }
                &&& q@ == query@
                &&& optional_text(t) == optional_text(timestamp)
                &&& prompt@ == composed(
                    driver.prompt_template@,
                    query@,
                    contents_of(sections@),
                    HARD_CHAR_BUDGET as nat,
                )
                &&& context@ == recorded_context(
                    driver.prompt_template@,
                    contents_of(sections@),
                    HARD_CHAR_BUDGET as nat,
                )
                &&& texts(distances@) == distances_of(sections@)
                &&& action matches AnswerAction::QueryRow(sql)
                &&& sql@ == completion_query(prompt@)
            }
        },
        (
            AnswerState::AwaitingCompletion { query, timestamp, prompt, context, distances },
            AnswerEvent::Completion(answer),
        ) => audits_or_replies(
            driver,
            query@,
            optional_text(timestamp),
            prompt@,
            texts(distances@),
            context@,
            answer@,
            next,
            action,
        ),
        (AnswerState::AwaitingAudit { answer }, AnswerEvent::Audited(_)) => {
            &&& next is Done
            &&& action matches AnswerAction::Reply(text)
            &&& text@ == reply_for(answer@)
        },
        (AnswerState::AwaitingAudit { answer }, AnswerEvent::Failed) => {
            &&& next is Done
            &&& action matches AnswerAction::Reply(text)
            &&& text@ == reply_for(answer@)
        },
        _ => next is Done && action is Fail,
    }
}

/// An optional text as a borrowed one.
fn borrow_optional(text: &Option<String>) -> (borrowed: Option<&str>)
    ensures
        match borrowed {
            Some(t) => optional_text(*text) == Some(t@),
            None => text is None,
        },
{
    match text {
        Some(t) => Some(t.as_str()),
        None => None,
    }
}

/// Picks the reply for an answer.
pub fn reply(answer: String) -> (text: String)
    ensures
        text@ == reply_for(answer@),
{
    if answer.as_str().is_empty() {
        "Sorry, I dont know how to help with that.".to_owned()
    } else {
        answer
    }
}

/// The contents and the distances of the retrieved sections, each in
/// retrieval order.
fn split_sections(sections: &Vec<Section>) -> (parts: (Vec<String>, Vec<String>))
    ensures
        texts(parts.0@) == contents_of(sections@),
        texts(parts.1@) == distances_of(sections@),
{
    let mut contents: Vec<String> = Vec::new();
    let mut distances: Vec<String> = Vec::new();
    let mut i: usize = 0;
    while i < sections.len()
        invariant
            i <= sections.len(),
            texts(contents@) == contents_of(sections@).take(i as int),
            texts(distances@) == distances_of(sections@).take(i as int),
        decreases sections.len() - i,
    {
        let ghost contents_before = contents@;
        let ghost distances_before = distances@;
        let content = sections[i].content.clone();
        let distance = sections[i].distance.clone();
        contents.push(content);
        distances.push(distance);
        proof {
            assert(texts(contents@) == texts(contents_before).push(content@));
            assert(texts(distances@) == texts(distances_before).push(distance@));
            assert(contents_of(sections@).take(i + 1) == contents_of(sections@).take(
                i as int,
            ).push(content@));
            assert(distances_of(sections@).take(i + 1) == distances_of(sections@).take(
                i as int,
            ).push(distance@));
        }
        i += 1;
    }
    assert(contents_of(sections@).take(sections.len() as int) == contents_of(sections@));
    assert(distances_of(sections@).take(sections.len() as int) == distances_of(sections@));
    (contents, distances)
}

impl DatabendDriver {
    /// Closes the answering: writes the audit record where an answer table
    /// is set, and replies at once where none is.
    fn audit_or_reply(
        &self,
        query: &str,
        timestamp: &Option<String>,
        prompt: &str,
        distances: &Vec<String>,
        context: &str,
        answer: String,
    ) -> (r: (AnswerState, AnswerAction))
        ensures
            audits_or_replies(
                *self,
                query@,
                optional_text(*timestamp),
                prompt@,
                texts(distances@),
                context@,
                answer@,
                r.0,
                r.1,
            ),
    {
        let statement = self.insert_answer(
            query,
            prompt,
            distances,
            context,
            answer.as_str(),
            borrow_optional(timestamp),
        );
        match statement {
            Some(sql) => (AnswerState::AwaitingAudit { answer }, AnswerAction::Execute(sql)),
            None => (AnswerState::Done, AnswerAction::Reply(reply(answer))),
        }
    }

    /// Begins to answer a query: the first thing to ask for is the query's
    /// embedding.
    pub fn query(&self, query: &str, timestamp: Option<String>) -> (r: (AnswerState, AnswerAction))
        ensures
            r.0 matches AnswerState::AwaitingEmbedding { query: q, timestamp: t } && q@ == query@
                && optional_text(t) == optional_text(timestamp),
            r.1 matches AnswerAction::QueryRow(sql) && sql@ == embedding_query(query@),
    {
        let sql = self.get_embedding(query);
        (
            AnswerState::AwaitingEmbedding { query: query.to_owned(), timestamp },
            AnswerAction::QueryRow(sql),
        )
    }

    /// Takes what came back from the outside and decides what to do next.
    /// An empty embedding ends the answering with the fallback; no retrieved
    /// section skips the completion; a failed audit write still replies.
    pub fn advance(&self, state: AnswerState, event: AnswerEvent) -> (r: (AnswerState, AnswerAction))
        ensures
            answer_step(*self, state, event, r.0, r.1),
    {
        match (state, event) {
            (
                AnswerState::AwaitingEmbedding { query, timestamp },
                AnswerEvent::Embedding(embedding),
            ) => {
                if embedding.as_str().is_empty() {
                    (AnswerState::Done, AnswerAction::Reply(reply(String::new())))
                } else {
                    let sql = self.get_similar_sections(embedding.as_str());
                    (
                        AnswerState::AwaitingSections { query, timestamp },
                        AnswerAction::QueryRows(sql),
                    )
                }
            },
            (AnswerState::AwaitingSections { query, timestamp }, AnswerEvent::Sections(sections)) => {
                if sections.len() == 0 {
                    let none: Vec<String> = Vec::new();
                    assert(texts(none@) == Seq::<Seq<char>>::empty());
                    let blank = String::new();
                    self.audit_or_reply(
                        query.as_str(),
                        &timestamp,
                        blank.as_str(),
                        &none,
                        blank.as_str(),
                        String::new(),
                    )
                } else {
                    let (contents, distances) = split_sections(&sections);
                    let joined = join(&contents, " ");
                    let clean = remove_markdown_links(joined.as_str());
                    let context = cut_context(
                        self.prompt_template.as_str(),
                        clean.as_str(),
                        HARD_CHAR_BUDGET,
                    );
                    let with_context = substitute(
                        self.prompt_template.as_str(),
                        "{{context}}",
                        context.as_str(),
                    );
                    let prompt = substitute(with_context.as_str(), "{{query}}", query.as_str());
                    let sql = self.get_completion(prompt.as_str());
                    (
                        AnswerState::AwaitingCompletion {
                            query,
                            timestamp,
                            prompt,
                            context,
                            distances,
                        },
                        AnswerAction::QueryRow(sql),
                    )
                }
            },
            (
                AnswerState::AwaitingCompletion { query, timestamp, prompt, context, distances },
                AnswerEvent::Completion(answer),
            ) => self.audit_or_reply(
                query.as_str(),
                &timestamp,
                prompt.as_str(),
                &distances,
                context.as_str(),
                answer,
            ),
            (AnswerState::AwaitingAudit { answer }, AnswerEvent::Audited(_)) => (
                AnswerState::Done,
                AnswerAction::Reply(reply(answer)),
            ),
            (AnswerState::AwaitingAudit { answer }, AnswerEvent::Failed) => (
                AnswerState::Done,
                AnswerAction::Reply(reply(answer)),
            ),
            _ => (AnswerState::Done, AnswerAction::Fail),
        }
    }
}

} // verus!
