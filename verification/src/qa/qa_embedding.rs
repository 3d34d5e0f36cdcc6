use crate::configs::config::Config;
use crate::dal::db::{embedding_statement, insert_statement, tuples_of, DatabendDriver};
use crate::files::markdown::Markdown;
use crate::files::parse::{error_paths, failed_paths, parsed_files, Document, Parse, ParseError};
use vstd::prelude::*;

verus! {

/// Rebuilds the embeddings of all documents, with the settings to do so.
pub struct QAEmbedding {
    pub conf: Config,
}

/// What a rebuild sends to the store, in this order: the statement that
/// inserts the chunks, if there are any, and the statement that fills in
/// the embeddings; and with them the documents that could not be split.
pub struct RebuildPlan {
    pub insert: Option<String>,
    pub embedding: String,
    pub failed: Vec<ParseError>,
}

impl QAEmbedding {
    /// A rebuilder with its own copy of the settings.
    pub fn create(conf: &Config) -> (rebuilder: QAEmbedding)
        ensures
            rebuilder.conf.same(conf),
    {
        QAEmbedding { conf: conf.clone() }
    }

    /// Plans the rebuild for a batch of Markdown documents: every document
    /// is split into chunks, the chunks of all documents that could be
    /// split are inserted with one statement, and the embeddings are filled
    /// in after that.
    pub fn rebuild(&self, driver: &DatabendDriver, documents: &[Document]) -> (plan: RebuildPlan)
        ensures
            tuples_of(
                parsed_files(documents@, |c: Seq<char>| Markdown::chunk_texts(c)),
            ).len() == 0 ==> plan.insert is None,
            tuples_of(
                parsed_files(documents@, |c: Seq<char>| Markdown::chunk_texts(c)),
            ).len() > 0 ==> plan.insert is Some && plan.insert->0@ == insert_statement(
                driver.database@,
                driver.table@,
                tuples_of(parsed_files(documents@, |c: Seq<char>| Markdown::chunk_texts(c))),
            ),
            plan.embedding@ == embedding_statement(
                driver.database@,
                driver.table@,
                driver.max_content_length as nat,
            ),
            error_paths(plan.failed@) == failed_paths(
                documents@,
                |c: Seq<char>| Markdown::chunk_texts(c),
            ),
    {
        let batch = Markdown::parse_multiple(documents);
        RebuildPlan {
            insert: driver.insert(&batch.files),
            embedding: driver.embedding(),
            failed: batch.failed,
        }
    }
}

} // verus!
