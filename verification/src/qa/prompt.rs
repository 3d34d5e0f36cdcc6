use crate::base::string::{
    lemma_substituted_len, links_removed, occurrences, remove_markdown_links, substitute,
    substituted,
};
use crate::files::parse::texts;
use vstd::prelude::*;

verus! {

/// The number of characters that a prompt may take by default.
pub const HARD_CHAR_BUDGET: usize = 8192;

/// The placeholder of a template that the retrieved context replaces.
pub open spec fn context_marker() -> Seq<char> {
    "{{context}}"@
}

/// The placeholder of a template that the query replaces.
pub open spec fn query_marker() -> Seq<char> {
    "{{query}}"@
}

/// The parts, in order, with `sep` between each two neighbours.
pub open spec fn joined(parts: Seq<Seq<char>>, sep: Seq<char>) -> Seq<char>
    decreases parts.len(),
{
    if parts.len() == 0 {
        Seq::empty()
    } else if parts.len() == 1 {
        parts[0]
    } else {
        joined(parts.drop_last(), sep) + sep + parts.last()
    }
}

/// Joins the parts with `sep` between them.
pub fn join(parts: &Vec<String>, sep: &str) -> (out: String)
    ensures
        out@ == joined(texts(parts@), sep@),
{
    let mut out = String::new();
    let mut i: usize = 0;
    let ghost all = texts(parts@);
    assert(all.take(0).len() == 0);
    while i < parts.len()
        invariant
            i <= parts.len(),
            all == texts(parts@),
            out@ == joined(all.take(i as int), sep@),
        decreases parts.len() - i,
    {
        proof {
            assert(all.take(i + 1).drop_last() == all.take(i as int));
            assert(all.take(i + 1).last() == parts@[i as int]@);
            if i == 0 {
                assert(all.take(1)[0] == parts@[0]@);
                assert(Seq::<char>::empty() + parts@[0]@ == parts@[0]@);
            }
        }
        if i > 0 {
            out.append(sep);
        }
        out.append(parts[i].as_str());
        i += 1;
    }
    assert(all.take(parts.len() as int) == all);
    out
}

/// The first `max` characters of `s`, or all of `s` where it has no more.
pub open spec fn truncated(s: Seq<char>, max: nat) -> Seq<char> {
    if s.len() <= max {
        s
    } else {
        s.take(max as int)
    }
}

/// Cuts a text to at most `max` characters. The cut is hard: it may fall
/// inside a word.
pub fn truncate_chars(s: &str, max: usize) -> (out: String)
    ensures
        out@ == truncated(s@, max as nat),
{
    if s.unicode_len() <= max {
        s.to_owned()
    } else {
        s.substring_char(0, max).to_owned()
    }
}

/// The room that a template of `template_len` characters leaves for context
/// under `budget`: none where the template alone reaches the budget.
pub open spec fn available(template_len: nat, budget: nat) -> nat {
    if template_len <= budget {
        (budget - template_len) as nat
    } else {
        0
    }
}

/// The template with the context, cut to the room that the budget leaves,
/// in place of the context placeholder.
pub open spec fn with_context(template: Seq<char>, context: Seq<char>, budget: nat) -> Seq<char> {
    substituted(template, context_marker(), truncated(context, available(template.len(), budget)))
}

/// The prompt for a context that is ready to be put in: the context is cut
/// to the room that the budget leaves and replaces the context placeholder;
/// then the query replaces the query placeholder.
pub open spec fn filled(template: Seq<char>, context: Seq<char>, query: Seq<char>, budget: nat) -> Seq<
    char,
> {
    substituted(with_context(template, context, budget), query_marker(), query)
}

/// Cuts a context to the room that the template leaves under the budget.
pub fn cut_context(template: &str, context: &str, hard_char_budget: usize) -> (cut: String)
    ensures
        cut@ == truncated(context@, available(template@.len(), hard_char_budget as nat)),
{
    let template_len = template.unicode_len();
    let room = if template_len <= hard_char_budget {
        hard_char_budget - template_len
    } else {
        0
    };
    truncate_chars(context, room)
}

/// Puts a context and a query into a template, cutting the context so that
/// template and context stay within `hard_char_budget` characters.
pub fn fill_template(template: &str, context: &str, query: &str, hard_char_budget: usize) -> (prompt:
    String)
    ensures
        prompt@ == filled(template@, context@, query@, hard_char_budget as nat),
{
    let cut = cut_context(template, context, hard_char_budget);
    let with_context = substitute(template, "{{context}}", cut.as_str());
    substitute(with_context.as_str(), "{{query}}", query)
}

/// The context that a run of retrieved chunks gives: the chunks in
/// retrieval order with one blank between them, inline links stripped.
pub open spec fn context_of(chunks: Seq<Seq<char>>) -> Seq<char> {
    links_removed(joined(chunks, " "@))
}

/// The prompt for a query and the chunks retrieved for it.
pub open spec fn composed(
    template: Seq<char>,
    query: Seq<char>,
    chunks: Seq<Seq<char>>,
    budget: nat,
) -> Seq<char> {
    filled(template, context_of(chunks), query, budget)
}

/// Merges the retrieved chunks and the query into one prompt.
pub fn compose(
    template: &str,
    query: &str,
    retrieved_chunks: &Vec<String>,
    hard_char_budget: usize,
) -> (prompt: String)
    ensures
        prompt@ == composed(template@, query@, texts(retrieved_chunks@), hard_char_budget as nat),
{
    let context = join(retrieved_chunks, " ");
    let context = remove_markdown_links(context.as_str());
    fill_template(template, context.as_str(), query, hard_char_budget)
}

/// The most characters that template and context can take together,
/// whatever the context: the template, with each context placeholder
/// exchanged for all the room that the budget leaves.
pub open spec fn longest_with_context(template: Seq<char>, budget: nat) -> int {
    template.len() + occurrences(template, context_marker()) * (available(template.len(), budget)
        - context_marker().len())
}

/// Template and context together never take more than the longest that the
/// template allows, and the prompt differs from them by what putting in the
/// query adds or takes.
pub proof fn lemma_prompt_len(
    template: Seq<char>,
    context: Seq<char>,
    query: Seq<char>,
    budget: nat,
)
    ensures
        with_context(template, context, budget).len() <= longest_with_context(template, budget),
        context.len() >= available(template.len(), budget) ==> with_context(
            template,
            context,
            budget,
        ).len() == longest_with_context(template, budget),
        filled(template, context, query, budget).len() == with_context(
            template,
            context,
            budget,
        ).len() + occurrences(with_context(template, context, budget), query_marker()) * (
        query.len() - query_marker().len()),
{
    let room = available(template.len(), budget);
    let cut = truncated(context, room);
    lemma_substituted_len(template, context_marker(), cut);
    let n = occurrences(template, context_marker());
    let m = context_marker().len();
    assert(n * (cut.len() - m) <= n * (room - m)) by (nonlinear_arith)
        requires
            cut.len() <= room,
    ;
    lemma_substituted_len(with_context(template, context, budget), query_marker(), query);
}

/// Budget safety: where the template with all the room filled stays within
/// the budget, which it does whenever it fits the budget itself and names
/// the context at most once, template and context together stay within the
/// budget whatever was retrieved, and the prompt exceeds it by no more than
/// what putting in the query adds.
pub proof fn lemma_prompt_within_budget(
    template: Seq<char>,
    context: Seq<char>,
    query: Seq<char>,
    budget: nat,
)
    requires
        longest_with_context(template, budget) <= budget,
    ensures
        with_context(template, context, budget).len() <= budget,
        filled(template, context, query, budget).len() <= budget + occurrences(
            with_context(template, context, budget),
            query_marker(),
        ) * (query.len() - query_marker().len()),
{
    lemma_prompt_len(template, context, query, budget);
}

/// A template that fits the budget and names the context at most once
/// stays within the budget with all the room filled.
pub proof fn lemma_single_context_fits(template: Seq<char>, budget: nat)
    requires
        template.len() <= budget,
        occurrences(template, context_marker()) <= 1,
    ensures
        longest_with_context(template, budget) <= budget,
{
    let n = occurrences(template, context_marker());
    let d = available(template.len(), budget) - context_marker().len();
    assert(n * d <= budget - template.len()) by (nonlinear_arith)
        requires
            0 <= n <= 1,
            d <= budget - template.len(),
            0 <= budget - template.len(),
    ;
}

} // verus!
