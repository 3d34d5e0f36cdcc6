use crate::files::parse::{file_views, texts, SnippetFiles};
use crate::qa::prompt::{truncate_chars, truncated};
use vstd::prelude::*;

verus! {

/// A persisted chunk. The embedding is empty until it has been computed;
/// each of its components is held as the bit pattern of a 32-bit float.
pub struct StoredRecord {
    pub path: String,
    pub content: String,
    pub embedding: Vec<u32>,
}

impl View for StoredRecord {
    type V = (Seq<char>, Seq<char>, Seq<u32>);

    open spec fn view(&self) -> (Seq<char>, Seq<char>, Seq<u32>) {
        (self.path@, self.content@, self.embedding@)
    }
}

/// The views of a run of records.
pub open spec fn record_views(records: Seq<StoredRecord>) -> Seq<(Seq<char>, Seq<char>, Seq<u32>)> {
    Seq::new(records.len(), |i: int| records[i]@)
}

/// The stored records, in the order in which they were written.
pub struct Corpus {
    pub records: Vec<StoredRecord>,
}

impl View for Corpus {
    type V = Seq<(Seq<char>, Seq<char>, Seq<u32>)>;

    open spec fn view(&self) -> Seq<(Seq<char>, Seq<char>, Seq<u32>)> {
        record_views(self.records@)
    }
}

/// The rows that the chunks of one file become: one for each chunk, in
/// order, without an embedding.
pub open spec fn rows_of_file(path: Seq<char>, snippets: Seq<Seq<char>>) -> Seq<
    (Seq<char>, Seq<char>, Seq<u32>),
> {
    Seq::new(snippets.len(), |i: int| (path, snippets[i], Seq::<u32>::empty()))
}

/// The rows that a batch of files becomes, file after file.
pub open spec fn rows_of(files: Seq<(Seq<char>, Seq<Seq<char>>)>) -> Seq<
    (Seq<char>, Seq<char>, Seq<u32>),
>
    decreases files.len(),
{
    if files.len() == 0 {
        Seq::empty()
    } else {
        rows_of(files.drop_last()) + rows_of_file(files.last().0, files.last().1)
    }
}

/// What a record is embedded from: path and content, one after the other,
/// cut to `max_content_chars` characters.
pub open spec fn embedding_input(row: (Seq<char>, Seq<char>, Seq<u32>), max_content_chars: nat) -> Seq<
    char,
> {
    truncated(row.0 + row.1, max_content_chars)
}

/// The embeddings still to compute: for each row without one, in order, its
/// position and the text to embed.
pub open spec fn requests_of(rows: Seq<(Seq<char>, Seq<char>, Seq<u32>)>, max_content_chars: nat) -> Seq<
    (int, Seq<char>),
>
    decreases rows.len(),
{
    if rows.len() == 0 {
        Seq::empty()
    } else if rows.last().2.len() == 0 {
        requests_of(rows.drop_last(), max_content_chars).push(
            (rows.len() - 1, embedding_input(rows.last(), max_content_chars)),
        )
    } else {
        requests_of(rows.drop_last(), max_content_chars)
    }
}

/// The rows after one embedding has come back: it is written where the row
/// exists and has none yet; a row that has one keeps it.
pub open spec fn stored_one(rows: Seq<(Seq<char>, Seq<char>, Seq<u32>)>, index: int, embedding: Seq<u32>) -> Seq<
    (Seq<char>, Seq<char>, Seq<u32>),
> {
    if 0 <= index < rows.len() && rows[index].2.len() == 0 {
        rows.update(index, (rows[index].0, rows[index].1, embedding))
    } else {
        rows
    }
}

/// The rows after a run of embeddings has come back, in the order given.
pub open spec fn stored(rows: Seq<(Seq<char>, Seq<char>, Seq<u32>)>, answers: Seq<(int, Seq<u32>)>) -> Seq<
    (Seq<char>, Seq<char>, Seq<u32>),
>
    decreases answers.len(),
{
    if answers.len() == 0 {
        rows
    } else {
        stored_one(stored(rows, answers.drop_last()), answers.last().0, answers.last().1)
    }
}

/// A request to the embedding service: the record it is for and the text to
/// embed.
pub struct EmbeddingRequest {
    pub index: usize,
    pub text: String,
}

/// What the embedding service gave for one record; empty where it failed.
pub struct EmbeddingAnswer {
    pub index: usize,
    pub embedding: Vec<u32>,
}

/// The views of a run of requests.
pub open spec fn request_views(requests: Seq<EmbeddingRequest>) -> Seq<(int, Seq<char>)> {
    Seq::new(requests.len(), |i: int| (requests[i].index as int, requests[i].text@))
}

/// The views of a run of answers.
pub open spec fn answer_views(answers: Seq<EmbeddingAnswer>) -> Seq<(int, Seq<u32>)> {
    Seq::new(answers.len(), |i: int| (answers[i].index as int, answers[i].embedding@))
}

impl Corpus {
    /// A corpus without records.
    pub fn new() -> (corpus: Corpus)
        ensures
            corpus@.len() == 0,
    {
        Corpus { records: Vec::new() }
    }

    /// Writes one record for each chunk, without an embedding, after the
    /// records that are there, and says how many were written.
    pub fn ingest(&mut self, chunks: &SnippetFiles) -> (inserted: usize)
        ensures
            final(self)@ == old(self)@ + rows_of(file_views(chunks.snippet_files@)),
            inserted == rows_of(file_views(chunks.snippet_files@)).len(),
    {
        let start = self.records.len();
        let ghost files = file_views(chunks.snippet_files@);
        let ghost before = self@;
        let mut i: usize = 0;
        assert(files.take(0).len() == 0);
        assert(self@ == before + rows_of(files.take(0)));
        while i < chunks.snippet_files.len()
            invariant
                i <= chunks.snippet_files.len(),
                files == file_views(chunks.snippet_files@),
                self@ == before + rows_of(files.take(i as int)),
                start == before.len(),
            decreases chunks.snippet_files.len() - i,
        {
            let file = &chunks.snippet_files[i];
            let ghost done = self@;
            let ghost path = file.file_path@;
            let ghost snippets = texts(file.code_snippets@);
            let mut j: usize = 0;
            assert(done + rows_of_file(path, snippets.take(0)) == done);
            while j < file.code_snippets.len()
                invariant
                    j <= file.code_snippets.len(),
                    path == file.file_path@,
                    snippets == texts(file.code_snippets@),
                    self@ == done + rows_of_file(path, snippets.take(j as int)),
                decreases file.code_snippets.len() - j,
            {
                let ghost rows = self@;
                let record = StoredRecord {
                    path: file.file_path.clone(),
                    content: file.code_snippets[j].clone(),
                    embedding: Vec::new(),
                };
                self.records.push(record);
                assert(self@ == rows.push(record@));
                assert(rows_of_file(path, snippets.take(j + 1)) == rows_of_file(
                    path,
                    snippets.take(j as int),
                ).push(record@));
                j += 1;
            }
            proof {
                assert(snippets.take(file.code_snippets.len() as int) == snippets);
                assert(files.take(i + 1).drop_last() == files.take(i as int));
                assert(files.take(i + 1).last() == (path, snippets));
            }
            i += 1;
        }
        assert(files.take(chunks.snippet_files.len() as int) == files);
        self.records.len() - start
    }
}

impl Corpus {
    /// Lists the embeddings still to compute: one request for each record
    /// without an embedding, in order. A record that has one is not listed.
    pub fn embedding_requests(&self, max_content_chars: usize) -> (requests: Vec<EmbeddingRequest>)
        ensures
            request_views(requests@) == requests_of(self@, max_content_chars as nat),
    {
        let mut requests: Vec<EmbeddingRequest> = Vec::new();
        let mut i: usize = 0;
        let ghost rows = self@;
        assert(rows.take(0).len() == 0);
        assert(request_views(requests@) == requests_of(rows.take(0), max_content_chars as nat));
        while i < self.records.len()
            invariant
                i <= self.records.len(),
                rows == self@,
                request_views(requests@) == requests_of(
                    rows.take(i as int),
                    max_content_chars as nat,
                ),
            decreases self.records.len() - i,
        {
            proof {
                assert(rows.take(i + 1).drop_last() == rows.take(i as int));
                assert(rows.take(i + 1).last() == self.records@[i as int]@);
            }
            let record = &self.records[i];
            if record.embedding.len() == 0 {
                let mut whole = record.path.clone();
                whole.append(record.content.as_str());
                let text = truncate_chars(whole.as_str(), max_content_chars);
                let ghost before = requests@;
                let request = EmbeddingRequest { index: i, text };
                requests.push(request);
                assert(request_views(requests@) == request_views(before).push(
                    (i as int, request.text@),
                ));
            }
            i += 1;
        }
        assert(rows.take(self.records.len() as int) == rows);
        requests
    }

    /// Writes one embedding that has come back. A record that already has an
    /// embedding keeps it; path and content are never touched.
    pub fn store_embedding(&mut self, index: usize, embedding: Vec<u32>)
        ensures
            final(self)@ == stored_one(old(self)@, index as int, embedding@),
    {
        if index < self.records.len() && self.records[index].embedding.len() == 0 {
            let ghost rows = self@;
            self.records[index].embedding = embedding;
            assert(self@ == rows.update(index as int, (rows[index as int].0, rows[index as int].1, embedding@)));
        }
    }
}

impl Corpus {
    /// Writes a run of embeddings that have come back, in the order given.
    pub fn store_embeddings(&mut self, answers: &Vec<EmbeddingAnswer>)
        ensures
            final(self)@ == stored(old(self)@, answer_views(answers@)),
    {
        let ghost all = answer_views(answers@);
        let ghost before = self@;
        let mut i: usize = 0;
        assert(all.take(0).len() == 0);
        while i < answers.len()
            invariant
                i <= answers.len(),
                all == answer_views(answers@),
                self@ == stored(before, all.take(i as int)),
            decreases answers.len() - i,
        {
            proof {
                assert(all.take(i + 1).drop_last() == all.take(i as int));
                assert(all.take(i + 1).last() == (
                    answers@[i as int].index as int,
                    answers@[i as int].embedding@,
                ));
            }
            let embedding = answers[i].embedding.clone();
            assert(embedding@ == answers@[i as int].embedding@);
            self.store_embedding(answers[i].index, embedding);
            i += 1;
        }
        assert(all.take(answers.len() as int) == all);
    }
}

/// Whether every row has an embedding.
pub open spec fn all_embedded(rows: Seq<(Seq<char>, Seq<char>, Seq<u32>)>) -> bool {
    forall|i: int| 0 <= i < rows.len() ==> (#[trigger] rows[i]).2.len() > 0
}

/// Whether the answers hold an embedding for every row that has none.
pub open spec fn answers_cover(rows: Seq<(Seq<char>, Seq<char>, Seq<u32>)>, answers: Seq<(int, Seq<u32>)>) -> bool {
    forall|i: int|
        0 <= i < rows.len() && (#[trigger] rows[i]).2.len() == 0 ==> exists|a: int|
            0 <= a < answers.len() && (#[trigger] answers[a]).0 == i && answers[a].1.len() > 0
}

/// Writing embeddings keeps every row's path and content and every
/// embedding that was there: nothing is computed twice.
pub proof fn lemma_stored_keeps(rows: Seq<(Seq<char>, Seq<char>, Seq<u32>)>, answers: Seq<(int, Seq<u32>)>)
    ensures
        stored(rows, answers).len() == rows.len(),
        forall|i: int|
            0 <= i < rows.len() ==> (#[trigger] stored(rows, answers)[i]).0 == rows[i].0 && stored(
                rows,
                answers,
            )[i].1 == rows[i].1,
        forall|i: int|
            0 <= i < rows.len() && rows[i].2.len() > 0 ==> #[trigger] stored(rows, answers)[i]
                == rows[i],
    decreases answers.len(),
{
    if answers.len() > 0 {
        lemma_stored_keeps(rows, answers.drop_last());
    }
}

proof fn lemma_stored_fills(rows: Seq<(Seq<char>, Seq<char>, Seq<u32>)>, answers: Seq<(int, Seq<u32>)>, i: int, a: int)
    requires
        0 <= i < rows.len(),
        0 <= a < answers.len(),
        answers[a].0 == i,
        answers[a].1.len() > 0,
    ensures
        stored(rows, answers)[i].2.len() > 0,
    decreases answers.len(),
{
    let earlier = stored(rows, answers.drop_last());
    lemma_stored_keeps(rows, answers.drop_last());
    if a < answers.len() - 1 {
        lemma_stored_fills(rows, answers.drop_last(), i, a);
    }
}

/// Where every row has an embedding, nothing is left to request.
pub proof fn lemma_embedded_needs_nothing(rows: Seq<(Seq<char>, Seq<char>, Seq<u32>)>, max_content_chars: nat)
    requires
        all_embedded(rows),
    ensures
        requests_of(rows, max_content_chars).len() == 0,
    decreases rows.len(),
{
    if rows.len() > 0 {
        assert(rows[rows.len() - 1].2.len() > 0);
        assert forall|i: int| 0 <= i < rows.drop_last().len() implies (#[trigger] rows.drop_last()[i]).2.len() > 0 by {
            assert(rows.drop_last()[i] == rows[i]);
        }
        lemma_embedded_needs_nothing(rows.drop_last(), max_content_chars);
    }
}

/// Where every row has an embedding, no answer changes anything.
pub proof fn lemma_embedded_is_fixed(rows: Seq<(Seq<char>, Seq<char>, Seq<u32>)>, answers: Seq<(int, Seq<u32>)>)
    requires
        all_embedded(rows),
    ensures
        stored(rows, answers) == rows,
    decreases answers.len(),
{
    if answers.len() > 0 {
        lemma_embedded_is_fixed(rows, answers.drop_last());
    }
}

/// Filling is idempotent: once a pass has brought an embedding for every
/// row that had none, there is nothing left to request, so a second pass
/// computes nothing, and whatever it is handed leaves every embedding as it
/// is.
pub proof fn lemma_fill_idempotent(
    rows: Seq<(Seq<char>, Seq<char>, Seq<u32>)>,
    answers: Seq<(int, Seq<u32>)>,
    more: Seq<(int, Seq<u32>)>,
    max_content_chars: nat,
)
    requires
        answers_cover(rows, answers),
    ensures
        requests_of(stored(rows, answers), max_content_chars).len() == 0,
        stored(stored(rows, answers), more) == stored(rows, answers),
{
    let after = stored(rows, answers);
    lemma_stored_keeps(rows, answers);
    assert forall|i: int| 0 <= i < after.len() implies (#[trigger] after[i]).2.len() > 0 by {
        if rows[i].2.len() == 0 {
            let a = choose|a: int|
                0 <= a < answers.len() && (#[trigger] answers[a]).0 == i && answers[a].1.len() > 0;
            lemma_stored_fills(rows, answers, i, a);
        }
    }
    lemma_embedded_needs_nothing(after, max_content_chars);
    lemma_embedded_is_fixed(after, more);
}

} // verus!
