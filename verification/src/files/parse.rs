use crate::base::string::{count_tokens, token_count};
use vstd::prelude::*;

verus! {

/// A raw input unit: where it came from and its full text.
pub struct Document {
    pub path: String,
    pub content: String,
}

/// A document that could not be split, named by its path.
pub struct ParseError {
    pub path: String,
}

/// The chunks of one document, in document order.
pub struct SnippetFile {
    pub file_path: String,
    pub code_snippets: Vec<String>,
}

/// The chunks of a batch of documents.
pub struct SnippetFiles {
    pub snippet_files: Vec<SnippetFile>,
}

/// What a batch gave: the files that could be split, in input order, and one
/// error for each document that could not.
pub struct ParsedBatch {
    pub files: SnippetFiles,
    pub failed: Vec<ParseError>,
}

/// The texts of a list of strings.
pub open spec fn texts(v: Seq<String>) -> Seq<Seq<char>> {
    Seq::new(v.len(), |i: int| v[i]@)
}

/// Copies a list of strings.
pub fn copy_texts(list: &[String]) -> (copy: Vec<String>)
    ensures
        texts(copy@) == texts(list@),
{
    let mut copy: Vec<String> = Vec::new();
    let mut i: usize = 0;
    while i < list.len()
        invariant
            i <= list.len(),
            texts(copy@) == texts(list@).take(i as int),
        decreases list.len() - i,
    {
        let ghost before = copy@;
        let item = list[i].clone();
        copy.push(item);
        proof {
            assert(texts(copy@) == texts(before).push(item@));
            assert(texts(list@).take(i + 1) == texts(list@).take(i as int).push(item@));
        }
        i += 1;
    }
    assert(texts(list@).take(list.len() as int) == texts(list@));
    copy
}

/// The number of chunks in a run of files.
pub open spec fn snippet_total(files: Seq<SnippetFile>) -> nat
    decreases files.len(),
{
    if files.len() == 0 {
        0
    } else {
        snippet_total(files.drop_last()) + files.last().code_snippets@.len()
    }
}

/// The number of words in a run of chunks.
pub open spec fn tokens_in(snippets: Seq<String>) -> nat
    decreases snippets.len(),
{
    if snippets.len() == 0 {
        0
    } else {
        tokens_in(snippets.drop_last()) + token_count(snippets.last()@)
    }
}

/// The number of words in a run of files.
pub open spec fn token_total(files: Seq<SnippetFile>) -> nat
    decreases files.len(),
{
    if files.len() == 0 {
        0
    } else {
        token_total(files.drop_last()) + tokens_in(files.last().code_snippets@)
    }
}

proof fn lemma_snippet_total_prefix(files: Seq<SnippetFile>, k: int)
    requires
        0 <= k <= files.len(),
    ensures
        snippet_total(files.take(k)) <= snippet_total(files),
    decreases files.len() - k,
{
    if k < files.len() {
        lemma_snippet_total_prefix(files, k + 1);
        assert(files.take(k + 1).drop_last() == files.take(k));
    } else {
        assert(files.take(k) == files);
    }
}

proof fn lemma_tokens_in_prefix(snippets: Seq<String>, k: int)
    requires
        0 <= k <= snippets.len(),
    ensures
        tokens_in(snippets.take(k)) <= tokens_in(snippets),
    decreases snippets.len() - k,
{
    if k < snippets.len() {
        lemma_tokens_in_prefix(snippets, k + 1);
        assert(snippets.take(k + 1).drop_last() == snippets.take(k));
    } else {
        assert(snippets.take(k) == snippets);
    }
}

proof fn lemma_token_total_prefix(files: Seq<SnippetFile>, k: int)
    requires
        0 <= k <= files.len(),
    ensures
        token_total(files.take(k)) <= token_total(files),
    decreases files.len() - k,
{
    if k < files.len() {
        lemma_token_total_prefix(files, k + 1);
        assert(files.take(k + 1).drop_last() == files.take(k));
    } else {
        assert(files.take(k) == files);
    }
}

impl SnippetFile {
    /// The texts of the chunks.
    pub open spec fn snippets(&self) -> Seq<Seq<char>> {
        texts(self.code_snippets@)
    }

    /// Counts the words of all chunks of the file.
    pub fn tokens(&self) -> (n: usize)
        requires
            tokens_in(self.code_snippets@) <= usize::MAX,
        ensures
            n == tokens_in(self.code_snippets@),
    {
        let mut n: usize = 0;
        let mut i: usize = 0;
        while i < self.code_snippets.len()
            invariant
                i <= self.code_snippets.len(),
                n == tokens_in(self.code_snippets@.take(i as int)),
                tokens_in(self.code_snippets@) <= usize::MAX,
            decreases self.code_snippets.len() - i,
        {
            let t = count_tokens(self.code_snippets[i].as_str());
            proof {
                lemma_tokens_in_prefix(self.code_snippets@, i + 1);
                assert(self.code_snippets@.take(i + 1).drop_last() == self.code_snippets@.take(
                    i as int,
                ));
            }
            n += t;
            i += 1;
        }
        assert(self.code_snippets@.take(self.code_snippets.len() as int) == self.code_snippets@);
        n
    }
}

impl SnippetFiles {
    /// The number of chunks over all files.
    pub fn all_snippets(&self) -> (n: usize)
        requires
            snippet_total(self.snippet_files@) <= usize::MAX,
        ensures
            n == snippet_total(self.snippet_files@),
    {
        let mut n: usize = 0;
        let mut i: usize = 0;
        while i < self.snippet_files.len()
            invariant
                i <= self.snippet_files.len(),
                n == snippet_total(self.snippet_files@.take(i as int)),
                snippet_total(self.snippet_files@) <= usize::MAX,
            decreases self.snippet_files.len() - i,
        {
            proof {
                lemma_snippet_total_prefix(self.snippet_files@, i + 1);
                assert(self.snippet_files@.take(i + 1).drop_last() == self.snippet_files@.take(
                    i as int,
                ));
            }
            n += self.snippet_files[i].code_snippets.len();
            i += 1;
        }
        assert(self.snippet_files@.take(self.snippet_files.len() as int) == self.snippet_files@);
        n
    }

    /// The number of words over all chunks of all files.
    pub fn all_tokens(&self) -> (n: usize)
        requires
            token_total(self.snippet_files@) <= usize::MAX,
        ensures
            n == token_total(self.snippet_files@),
    {
        let mut n: usize = 0;
        let mut i: usize = 0;
        while i < self.snippet_files.len()
            invariant
                i <= self.snippet_files.len(),
                n == token_total(self.snippet_files@.take(i as int)),
                token_total(self.snippet_files@) <= usize::MAX,
            decreases self.snippet_files.len() - i,
        {
            proof {
                lemma_token_total_prefix(self.snippet_files@, i + 1);
                assert(self.snippet_files@.take(i + 1).drop_last() == self.snippet_files@.take(
                    i as int,
                ));
            }
            let t = self.snippet_files[i].tokens();
            n += t;
            i += 1;
        }
        assert(self.snippet_files@.take(self.snippet_files.len() as int) == self.snippet_files@);
        n
    }
}

impl View for SnippetFile {
    type V = (Seq<char>, Seq<Seq<char>>);

    open spec fn view(&self) -> (Seq<char>, Seq<Seq<char>>) {
        (self.file_path@, self.snippets())
    }
}

/// The views of a run of files.
pub open spec fn file_views(files: Seq<SnippetFile>) -> Seq<(Seq<char>, Seq<Seq<char>>)> {
    Seq::new(files.len(), |i: int| files[i]@)
}

/// The paths of a run of errors.
pub open spec fn error_paths(errors: Seq<ParseError>) -> Seq<Seq<char>> {
    Seq::new(errors.len(), |i: int| errors[i].path@)
}

/// The documents of `docs` that can be split, each with its path and its
/// chunks, in input order; `chunk_texts` says what the chunks of a content
/// are, if it can be split.
pub open spec fn parsed_files(
    docs: Seq<Document>,
    chunk_texts: spec_fn(Seq<char>) -> Option<Seq<Seq<char>>>,
) -> Seq<(Seq<char>, Seq<Seq<char>>)>
    decreases docs.len(),
{
    if docs.len() == 0 {
        Seq::empty()
    } else {
        match chunk_texts(docs.last().content@) {
            Some(chunks) => parsed_files(docs.drop_last(), chunk_texts).push((docs.last().path@, chunks)),
            None => parsed_files(docs.drop_last(), chunk_texts),
        }
    }
}

/// The paths of the documents of `docs` that cannot be split, in input
/// order.
pub open spec fn failed_paths(
    docs: Seq<Document>,
    chunk_texts: spec_fn(Seq<char>) -> Option<Seq<Seq<char>>>,
) -> Seq<Seq<char>>
    decreases docs.len(),
{
    if docs.len() == 0 {
        Seq::empty()
    } else {
        match chunk_texts(docs.last().content@) {
            Some(_) => failed_paths(docs.drop_last(), chunk_texts),
            None => failed_paths(docs.drop_last(), chunk_texts).push(docs.last().path@),
        }
    }
}

/// A kind of document that can be split into chunks.
pub trait Parse: Sized {
    /// The chunks of a document with this content, or `None` where such a
    /// document cannot be split.
    spec fn chunk_texts(content: Seq<char>) -> Option<Seq<Seq<char>>>;

    /// Splits one document. A document that cannot be split gives no chunks
    /// at all, only the error that names it.
    fn parse(path: &str, content: &str) -> (r: Result<SnippetFile, ParseError>)
        ensures
            match r {
                Ok(file) => file@ == (path@, Self::chunk_texts(content@)->0)
                    && Self::chunk_texts(content@) is Some,
                Err(e) => e.path@ == path@ && Self::chunk_texts(content@) is None,
            },
    ;

    /// Splits a batch of documents. A document that cannot be split is
    /// skipped and reported; the others are still processed.
    fn parse_multiple(docs: &[Document]) -> (batch: ParsedBatch)
        ensures
            file_views(batch.files.snippet_files@) == parsed_files(docs@, |c: Seq<char>| Self::chunk_texts(c)),
            error_paths(batch.failed@) == failed_paths(docs@, |c: Seq<char>| Self::chunk_texts(c)),
    {
        let mut files: Vec<SnippetFile> = Vec::new();
        let mut failed: Vec<ParseError> = Vec::new();
        let mut i: usize = 0;
        assert(docs@.take(0).len() == 0);
        assert(file_views(files@) == parsed_files(docs@.take(0), |c: Seq<char>| Self::chunk_texts(c)));
        assert(error_paths(failed@) == failed_paths(docs@.take(0), |c: Seq<char>| Self::chunk_texts(c)));
        while i < docs.len()
            invariant
                i <= docs.len(),
                file_views(files@) == parsed_files(docs@.take(i as int), |c: Seq<char>| Self::chunk_texts(c)),
                error_paths(failed@) == failed_paths(docs@.take(i as int), |c: Seq<char>| Self::chunk_texts(c)),
            decreases docs.len() - i,
        {
            proof {
                assert(docs@.take(i + 1).drop_last() == docs@.take(i as int));
                assert(docs@.take(i + 1).last() == docs@[i as int]);
            }
            let ghost files_before = files@;
            let ghost failed_before = failed@;
            match Self::parse(docs[i].path.as_str(), docs[i].content.as_str()) {
                Ok(file) => {
                    files.push(file);
                    assert(file_views(files@) == file_views(files_before).push(file@));
                },
                Err(e) => {
                    failed.push(e);
                    assert(error_paths(failed@) == error_paths(failed_before).push(e.path@));
                },
            }
            i += 1;
        }
        assert(docs@.take(docs.len() as int) == docs@);
        ParsedBatch { files: SnippetFiles { snippet_files: files }, failed }
    }
}

} // verus!
