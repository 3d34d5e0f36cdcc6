use crate::configs::config::Config;
use crate::files::parse::texts;
use vstd::prelude::*;

verus! {

/// Answers questions through a language model, with the settings to reach
/// it.
pub struct BendLLM {
    pub conf: Config,
}

/// One stored document that is similar to the question.
pub struct Similarity {
    pub content: String,
    pub path: String,
}

/// How one similar document is shown to the model.
pub open spec fn context_entry(content: Seq<char>, path: Seq<char>) -> Seq<char> {
    "context:"@ + content + "\nsource:"@ + path
}

/// The similar documents as they are shown to the model: the entries one
/// after the other, with nothing between them.
pub open spec fn contexts_of(similarities: Seq<Similarity>) -> Seq<char>
    decreases similarities.len(),
{
    if similarities.len() == 0 {
        Seq::empty()
    } else {
        contexts_of(similarities.drop_last()) + context_entry(
            similarities.last().content@,
            similarities.last().path@,
        )
    }
}

impl BendLLM {
    /// A model front with its own copy of the settings.
    pub fn create(conf: &Config) -> (llm: BendLLM)
        ensures
            llm.conf.same(conf),
    {
        BendLLM { conf: conf.clone() }
    }

    /// Writes the similar documents out for the prompt.
    pub fn contexts(similarities: &Vec<Similarity>) -> (out: String)
        ensures
            out@ == contexts_of(similarities@),
    {
        let mut out = String::new();
        let mut i: usize = 0;
        assert(similarities@.take(0).len() == 0);
        while i < similarities.len()
            invariant
                i <= similarities.len(),
                out@ == contexts_of(similarities@.take(i as int)),
            decreases similarities.len() - i,
        {
            proof {
                assert(similarities@.take(i + 1).drop_last() == similarities@.take(i as int));
                assert(similarities@.take(i + 1).last() == similarities@[i as int]);
            }
            out.append("context:");
            out.append(similarities[i].content.as_str());
            out.append("\nsource:");
            out.append(similarities[i].path.as_str());
            i += 1;
        }
        assert(similarities@.take(similarities.len() as int) == similarities@);
        out
    }
}

/// The instructions that go with every question, in order.
pub open spec fn instruction_texts() -> Seq<Seq<char>> {
    seq![
        "Present your answer in markdown format, including code snippets if have, format the code snippets with SQL type if necessary."@,
        "Do not include any links or external references in your response.\n"@,
        "Do not change the code snippets.\n"@,
        "Do not change the SQL syntax, please don't make up the function.\n"@,
        "Do not change explain any code snippets.\n"@,
        "Make the whole answer as short as possible to keep the code snippets.\n"@,
    ]
}

impl BendLLM {
    /// The instructions that go with every question.
    pub fn instructions() -> (list: Vec<String>)
        ensures
            texts(list@) == instruction_texts(),
    {
        let mut list: Vec<String> = Vec::new();
        list.push(
            "Present your answer in markdown format, including code snippets if have, format the code snippets with SQL type if necessary.".to_owned(),
        );
        list.push("Do not include any links or external references in your response.\n".to_owned());
        list.push("Do not change the code snippets.\n".to_owned());
        list.push("Do not change the SQL syntax, please don't make up the function.\n".to_owned());
        list.push("Do not change explain any code snippets.\n".to_owned());
        list.push(
            "Make the whole answer as short as possible to keep the code snippets.\n".to_owned(),
        );
        assert(texts(list@) =~= instruction_texts());
        list
    }
}

} // verus!
