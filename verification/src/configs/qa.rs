use crate::base::string::{debug_form, debug_string, decimal, push_decimal};
use vstd::prelude::*;

verus! {

/// The settings for answering queries: where the documents are read from,
/// where the records are stored, and how many sections a query retrieves.
pub struct QAConfig {
    pub path: String,
    pub database: String,
    pub table: String,
    pub answer_table: String,
    pub dsn: String,
    pub top: usize,
    pub rebuild: bool,
}

impl Default for QAConfig {
    fn default() -> (conf: QAConfig)
        ensures
            conf.path@ == "data/"@,
            conf.database@.len() == 0,
            conf.table@.len() == 0,
            conf.answer_table@.len() == 0,
            conf.dsn@.len() == 0,
            conf.top == 2,
            !conf.rebuild,
    {
        QAConfig {
            path: "data/".to_owned(),
            database: String::new(),
            table: String::new(),
            answer_table: String::new(),
            dsn: String::new(),
            top: 2,
            rebuild: false,
        }
    }
}

impl Clone for QAConfig {
    fn clone(&self) -> (conf: QAConfig)
        ensures
            conf == *self,
    {
        QAConfig {
            path: self.path.clone(),
            database: self.database.clone(),
            table: self.table.clone(),
            answer_table: self.answer_table.clone(),
            dsn: self.dsn.clone(),
            top: self.top,
            rebuild: self.rebuild,
        }
    }
}

/// The settings written out for a log, with the connection string masked.
/// Whether the documents are rebuilt is not written.
pub open spec fn qa_description(
    path: Seq<char>,
    database: Seq<char>,
    table: Seq<char>,
    answer_table: Seq<char>,
    top: nat,
) -> Seq<char> {
    "QAConfig { path: "@ + debug_form(path) + ", database: "@ + debug_form(database) + ", table: "@
        + debug_form(table) + ", answer_table: "@ + debug_form(answer_table) + ", dsn: "@
        + debug_form("******"@) + ", top: "@ + decimal(top) + " }"@
}

impl QAConfig {
    /// Writes the settings out for a log. The connection string is shown as
    /// six asterisks, whatever it is.
    pub fn describe(&self) -> (text: String)
        ensures
            text@ == qa_description(
                self.path@,
                self.database@,
                self.table@,
                self.answer_table@,
                self.top as nat,
            ),
    {
        let mut out = String::new();
        out.append("QAConfig { path: ");
        out.append(debug_string(self.path.as_str()).as_str());
        out.append(", database: ");
        out.append(debug_string(self.database.as_str()).as_str());
        out.append(", table: ");
        out.append(debug_string(self.table.as_str()).as_str());
        out.append(", answer_table: ");
        out.append(debug_string(self.answer_table.as_str()).as_str());
        out.append(", dsn: ");
        out.append(debug_string("******").as_str());
        out.append(", top: ");
        push_decimal(&mut out, self.top);
        out.append(" }");
        out
    }
}

} // verus!
