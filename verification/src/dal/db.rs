use crate::base::string::{
    decimal, escape_sql_string, escaped, is_literal_body, lemma_escaped_is_literal_body,
    links_removed, push_decimal, remove_markdown_links,
};
use crate::files::parse::{file_views, texts, SnippetFiles};
use crate::qa::prompt::{join, joined};
use vstd::prelude::*;

verus! {

/// The settings under which statements for the backing store are written:
/// where the records live and how a query is answered.
pub struct DatabendDriver {
    pub database: String,
    pub table: String,
    pub answer_table: String,
    pub min_content_length: usize,
    pub max_content_length: usize,
    pub top: usize,
    /// The distance ceiling, written as the store reads it; `None` where
    /// results are not filtered by distance.
    pub min_distance: Option<String>,
    pub prompt_template: String,
}

/// One `(path, content)` entry of an insert statement, given the two
/// literals as they are to stand between the quotes.
pub open spec fn value_tuple(path: Seq<char>, content: Seq<char>) -> Seq<char> {
    "('"@ + path + "', '"@ + content + "')"@
}

/// The literal that holds the content of a chunk: the chunk stripped of
/// inline links, then escaped. The stripping comes first, so that what
/// stands between the quotes is an escaped text whatever the stripping gave.
pub open spec fn content_literal(snippet: Seq<char>) -> Seq<char> {
    escaped(links_removed(snippet))
}

/// The entry for one chunk: the path escaped, and the content literal.
pub open spec fn tuple_of(path: Seq<char>, snippet: Seq<char>) -> Seq<char> {
    value_tuple(escaped(path), content_literal(snippet))
}

/// Literal safety of an insert: neither the path nor the content of a
/// chunk can end the literal that holds it.
pub proof fn lemma_entry_literals_are_safe(path: Seq<char>, snippet: Seq<char>)
    ensures
        is_literal_body(escaped(path)),
        is_literal_body(content_literal(snippet)),
{
    lemma_escaped_is_literal_body(path);
    lemma_escaped_is_literal_body(links_removed(snippet));
}

/// The entries that the chunks of one file become, in order.
pub open spec fn tuples_of_file(path: Seq<char>, snippets: Seq<Seq<char>>) -> Seq<Seq<char>> {
    Seq::new(snippets.len(), |i: int| tuple_of(path, snippets[i]))
}

/// The entries that a batch of files becomes, file after file.
pub open spec fn tuples_of(files: Seq<(Seq<char>, Seq<Seq<char>>)>) -> Seq<Seq<char>>
    decreases files.len(),
{
    if files.len() == 0 {
        Seq::empty()
    } else {
        tuples_of(files.drop_last()) + tuples_of_file(files.last().0, files.last().1)
    }
}

/// The statement that inserts the given entries.
pub open spec fn insert_statement(database: Seq<char>, table: Seq<char>, tuples: Seq<Seq<char>>) -> Seq<
    char,
> {
    "INSERT INTO "@ + database + "."@ + table + " (path, content) VALUES "@ + " "@ + joined(
        tuples,
        ","@,
    )
}

/// Writes one entry of an insert statement from two ready literals.
pub fn write_value_tuple(path: &str, content: &str) -> (out: String)
    ensures
        out@ == value_tuple(path@, content@),
{
    let mut out = String::new();
    out.append("('");
    out.append(path);
    out.append("', '");
    out.append(content);
    out.append("')");
    out
}

impl DatabendDriver {
    /// Writes the entries for all chunks of a batch, one for each chunk.
    pub fn insert_values(&self, values: &SnippetFiles) -> (tuples: Vec<String>)
        ensures
            texts(tuples@) == tuples_of(file_views(values.snippet_files@)),
    {
        let mut tuples: Vec<String> = Vec::new();
        let ghost files = file_views(values.snippet_files@);
        let mut i: usize = 0;
        assert(files.take(0).len() == 0);
        assert(texts(tuples@) == tuples_of(files.take(0)));
        while i < values.snippet_files.len()
            invariant
                i <= values.snippet_files.len(),
                files == file_views(values.snippet_files@),
                texts(tuples@) == tuples_of(files.take(i as int)),
            decreases values.snippet_files.len() - i,
        {
            let file = &values.snippet_files[i];
            let path = escape_sql_string(file.file_path.as_str());
            let ghost done = texts(tuples@);
            let ghost snippets = texts(file.code_snippets@);
            let mut j: usize = 0;
            assert(done + tuples_of_file(file.file_path@, snippets.take(0)) == done);
            while j < file.code_snippets.len()
                invariant
                    j <= file.code_snippets.len(),
                    path@ == escaped(file.file_path@),
                    snippets == texts(file.code_snippets@),
                    texts(tuples@) == done + tuples_of_file(
                        file.file_path@,
                        snippets.take(j as int),
                    ),
                decreases file.code_snippets.len() - j,
            {
                let stripped = remove_markdown_links(file.code_snippets[j].as_str());
                let content = escape_sql_string(stripped.as_str());
                let tuple = write_value_tuple(path.as_str(), content.as_str());
                let ghost before = tuples@;
                tuples.push(tuple);
                assert(texts(tuples@) == texts(before).push(tuple@));
                assert(tuples_of_file(file.file_path@, snippets.take(j + 1)) == tuples_of_file(
                    file.file_path@,
                    snippets.take(j as int),
                ).push(tuple@));
                j += 1;
            }
            proof {
                assert(snippets.take(file.code_snippets.len() as int) == snippets);
                assert(files.take(i + 1).drop_last() == files.take(i as int));
                assert(files.take(i + 1).last() == (file.file_path@, snippets));
            }
            i += 1;
        }
        assert(files.take(values.snippet_files.len() as int) == files);
        tuples
    }

    /// Writes the statement that inserts the given entries; none where there
    /// is nothing to insert.
    pub fn insert_sql(&self, tuples: &Vec<String>) -> (sql: Option<String>)
        ensures
            tuples.len() == 0 ==> sql is None,
            tuples.len() > 0 ==> sql is Some && sql->0@ == insert_statement(
                self.database@,
                self.table@,
                texts(tuples@),
            ),
    {
        if tuples.len() == 0 {
            return None;
        }
        let mut out = String::new();
        out.append("INSERT INTO ");
        out.append(self.database.as_str());
        out.append(".");
        out.append(self.table.as_str());
        out.append(" (path, content) VALUES ");
        out.append(" ");
        let values = join(tuples, ",");
        out.append(values.as_str());
        Some(out)
    }

    /// Writes the statement that inserts all chunks of a batch; none where
    /// the batch holds no chunk.
    pub fn insert(&self, values: &SnippetFiles) -> (sql: Option<String>)
        ensures
            tuples_of(file_views(values.snippet_files@)).len() == 0 ==> sql is None,
            tuples_of(file_views(values.snippet_files@)).len() > 0 ==> sql is Some && sql->0@
                == insert_statement(
                self.database@,
                self.table@,
                tuples_of(file_views(values.snippet_files@)),
            ),
    {
        let tuples = self.insert_values(values);
        self.insert_sql(&tuples)
    }
}

/// The statement that asks the store for the embedding of a text.
pub open spec fn embedding_query(text: Seq<char>) -> Seq<char> {
    "SELECT ai_embedding_vector('"@ + escaped(text) + "')"@
}

/// The statement that asks the store to complete a text.
pub open spec fn completion_query(text: Seq<char>) -> Seq<char> {
    "SELECT ai_text_completion('"@ + escaped(text) + "')"@
}

/// The statement that fills in the embedding of every record that has none,
/// from the first `max_content_length` characters of path and content.
pub open spec fn embedding_statement(database: Seq<char>, table: Seq<char>, max_content_length: nat) -> Seq<
    char,
> {
    "UPDATE "@ + database + "."@ + table
        + " SET embedding = ai_embedding_vector(left(concat(path, content),"@ + decimal(
        max_content_length,
    ) + ")) WHERE length(embedding)=0"@
}

/// The statement that ranks the records with an embedding and more than
/// `min_content_length` characters of content by their distance to the
/// query embedding and takes the first `top`.
pub open spec fn ranking_query(
    query_embedding: Seq<char>,
    database: Seq<char>,
    table: Seq<char>,
    min_content_length: nat,
    top: nat,
) -> Seq<char> {
    "SELECT content, cosine_distance("@ + query_embedding + ", embedding) AS distance FROM "@
        + database + "."@ + table + " WHERE length(embedding) > 0 AND length(content)>"@ + decimal(
        min_content_length,
    ) + " ORDER BY distance ASC LIMIT "@ + decimal(top)
}

/// The statement that retrieves the sections most similar to a query: the
/// ranking, and around it the distance ceiling where one is set, so that
/// the ceiling is applied after the ranking.
pub open spec fn similar_sections_query(
    query_embedding: Seq<char>,
    database: Seq<char>,
    table: Seq<char>,
    min_content_length: nat,
    top: nat,
    min_distance: Option<Seq<char>>,
) -> Seq<char> {
    let ranked = "SELECT content, distance FROM ("@ + ranking_query(
        query_embedding,
        database,
        table,
        min_content_length,
        top,
    ) + ")"@;
    match min_distance {
        Some(ceiling) => ranked + " WHERE distance <="@ + ceiling,
        None => ranked,
    }
}

/// A list of distances as the store reads it: the items between square
/// brackets, with a comma and a blank between each two.
pub open spec fn distance_list(items: Seq<Seq<char>>) -> Seq<char> {
    "["@ + joined(items, ", "@) + "]"@
}

/// The statement that records one answered query, with the time of the
/// answer where one is given.
pub open spec fn answer_statement(
    database: Seq<char>,
    answer_table: Seq<char>,
    query: Seq<char>,
    prompt: Seq<char>,
    similar_distances: Seq<Seq<char>>,
    similar_sections: Seq<char>,
    answer: Seq<char>,
    timestamp: Option<Seq<char>>,
) -> Seq<char> {
    let columns = match timestamp {
        Some(_) => " (question, prompt, similar_distances, similar_sections, answer, ts) VALUES ('"@,
        None => " (question, prompt, similar_distances, similar_sections, answer) VALUES ('"@,
    };
    let values = "INSERT INTO "@ + database + "."@ + answer_table + columns + escaped(query)
        + "','"@ + escaped(prompt) + "', "@ + distance_list(similar_distances) + ", '"@ + escaped(
        similar_sections,
    ) + "', '"@ + escaped(answer) + "'"@;
    match timestamp {
        Some(ts) => values + ", '"@ + ts + "')"@,
        None => values + ")"@,
    }
}

impl DatabendDriver {
    /// Writes the statement that asks for the embedding of `text`.
    pub fn get_embedding(&self, text: &str) -> (sql: String)
        ensures
            sql@ == embedding_query(text@),
    {
        let mut out = String::new();
        out.append("SELECT ai_embedding_vector('");
        out.append(escape_sql_string(text).as_str());
        out.append("')");
        out
    }

    /// Writes the statement that asks for the completion of `text`.
    pub fn get_completion(&self, text: &str) -> (sql: String)
        ensures
            sql@ == completion_query(text@),
    {
        let mut out = String::new();
        out.append("SELECT ai_text_completion('");
        out.append(escape_sql_string(text).as_str());
        out.append("')");
        out
    }

    /// Writes the statement that builds every embedding that is still empty.
    /// Records that have an embedding are left out by the statement itself.
    pub fn embedding(&self) -> (sql: String)
        ensures
            sql@ == embedding_statement(
                self.database@,
                self.table@,
                self.max_content_length as nat,
            ),
    {
        let mut out = String::new();
        out.append("UPDATE ");
        out.append(self.database.as_str());
        out.append(".");
        out.append(self.table.as_str());
        out.append(" SET embedding = ai_embedding_vector(left(concat(path, content),");
        push_decimal(&mut out, self.max_content_length);
        out.append(")) WHERE length(embedding)=0");
        out
    }

    /// Writes the statement that retrieves the sections most similar to the
    /// query whose embedding is given.
    pub fn get_similar_sections(&self, query_embedding: &str) -> (sql: String)
        ensures
            sql@ == similar_sections_query(
                query_embedding@,
                self.database@,
                self.table@,
                self.min_content_length as nat,
                self.top as nat,
                match self.min_distance {
                    Some(ceiling) => Some(ceiling@),
                    None => None,
                },
            ),
    {
        let mut inner = String::new();
        inner.append("SELECT content, cosine_distance(");
        inner.append(query_embedding);
        inner.append(", embedding) AS distance FROM ");
        inner.append(self.database.as_str());
        inner.append(".");
        inner.append(self.table.as_str());
        inner.append(" WHERE length(embedding) > 0 AND length(content)>");
        push_decimal(&mut inner, self.min_content_length);
        inner.append(" ORDER BY distance ASC LIMIT ");
        push_decimal(&mut inner, self.top);
        let mut out = String::new();
        out.append("SELECT content, distance FROM (");
        out.append(inner.as_str());
        out.append(")");
        match &self.min_distance {
            Some(ceiling) => {
                out.append(" WHERE distance <=");
                out.append(ceiling.as_str());
            },
            None => {},
        }
        out
    }

    /// Writes the statement that records one answered query; none where no
    /// answer table is set.
    pub fn insert_answer(
        &self,
        query: &str,
        prompt: &str,
        similar_distances: &Vec<String>,
        similar_sections: &str,
        answer: &str,
        timestamp: Option<&str>,
    ) -> (sql: Option<String>)
        ensures
            self.answer_table@.len() == 0 ==> sql is None,
            self.answer_table@.len() > 0 ==> sql is Some && sql->0@ == answer_statement(
                self.database@,
                self.answer_table@,
                query@,
                prompt@,
                texts(similar_distances@),
                similar_sections@,
                answer@,
                match timestamp {
                    Some(ts) => Some(ts@),
                    None => None,
                },
            ),
    {
        if self.answer_table.as_str().is_empty() {
            return None;
        }
        let mut list = String::new();
        list.append("[");
        list.append(join(similar_distances, ", ").as_str());
        list.append("]");
        let mut out = String::new();
        out.append("INSERT INTO ");
        out.append(self.database.as_str());
        out.append(".");
        out.append(self.answer_table.as_str());
        match timestamp {
            Some(_) => out.append(
                " (question, prompt, similar_distances, similar_sections, answer, ts) VALUES ('",
            ),
            None => out.append(
                " (question, prompt, similar_distances, similar_sections, answer) VALUES ('",
            ),
        }
        out.append(escape_sql_string(query).as_str());
        out.append("','");
        out.append(escape_sql_string(prompt).as_str());
        out.append("', ");
        out.append(list.as_str());
        out.append(", '");
        out.append(escape_sql_string(similar_sections).as_str());
        out.append("', '");
        out.append(escape_sql_string(answer).as_str());
        out.append("'");
        match timestamp {
            Some(ts) => {
                out.append(", '");
                out.append(ts);
                out.append("')");
            },
            None => {
                out.append(")");
            },
        }
        Some(out)
    }
}

} // verus!
