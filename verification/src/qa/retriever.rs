use crate::qa::corpus::Corpus;
use vstd::prelude::*;

verus! {

/// One retrieved chunk. The distance is an integer that orders as the cosine
/// distance does: lower means more similar.
pub struct QueryResult {
    pub content: String,
    pub distance: u32,
}

impl View for QueryResult {
    type V = (Seq<char>, u32);

    open spec fn view(&self) -> (Seq<char>, u32) {
        (self.content@, self.distance)
    }
}

/// The views of a run of results.
pub open spec fn result_views(results: Seq<QueryResult>) -> Seq<(Seq<char>, u32)> {
    Seq::new(results.len(), |i: int| results[i]@)
}

/// Whether row `i` can be retrieved: it has a distance and an embedding, and
/// its content has more than `min_content_chars` characters.
pub open spec fn eligible(
    rows: Seq<(Seq<char>, Seq<char>, Seq<u32>)>,
    distances: Seq<u32>,
    min_content_chars: nat,
    i: int,
) -> bool {
    &&& 0 <= i < rows.len()
    &&& i < distances.len()
    &&& rows[i].2.len() > 0
    &&& rows[i].1.len() > min_content_chars
}

/// Where a row at distance `key` goes into the ranked `picks`: behind every
/// pick that is no farther, so that rows at the same distance stay in
/// storage order.
pub open spec fn slot(picks: Seq<int>, distances: Seq<u32>, key: u32) -> int
    decreases picks.len(),
{
    if picks.len() == 0 {
        0
    } else if distances[picks.last()] <= key {
        picks.len() as int
    } else {
        slot(picks.drop_last(), distances, key)
    }
}

/// The at most `top_k` nearest of the rows before `n` that can be
/// retrieved, nearest first.
pub open spec fn nearest(
    rows: Seq<(Seq<char>, Seq<char>, Seq<u32>)>,
    distances: Seq<u32>,
    min_content_chars: nat,
    top_k: nat,
    n: int,
) -> Seq<int>
    decreases n,
{
    if n <= 0 {
        Seq::empty()
    } else {
        let before = nearest(rows, distances, min_content_chars, top_k, n - 1);
        if eligible(rows, distances, min_content_chars, n - 1) {
            let grown = before.insert(slot(before, distances, distances[n - 1]), n - 1);
            if grown.len() > top_k {
                grown.take(top_k as int)
            } else {
                grown
            }
        } else {
            before
        }
    }
}

/// The picks that are no farther than `ceiling`, in the same order.
pub open spec fn within(picks: Seq<int>, distances: Seq<u32>, ceiling: u32) -> Seq<int>
    decreases picks.len(),
{
    if picks.len() == 0 {
        Seq::empty()
    } else if distances[picks.last()] <= ceiling {
        within(picks.drop_last(), distances, ceiling).push(picks.last())
    } else {
        within(picks.drop_last(), distances, ceiling)
    }
}

/// The rows that a query retrieves, nearest first: none where the query has
/// no embedding; else the `top_k` nearest rows that can be retrieved, and of
/// those the ones within `max_distance`, where one is set. The ceiling is
/// applied after the ranking.
pub open spec fn retrieved(
    rows: Seq<(Seq<char>, Seq<char>, Seq<u32>)>,
    query_embedding: Seq<u32>,
    distances: Seq<u32>,
    top_k: nat,
    min_content_chars: nat,
    max_distance: Option<u32>,
) -> Seq<int> {
    if query_embedding.len() == 0 {
        Seq::empty()
    } else {
        let ranked = nearest(rows, distances, min_content_chars, top_k, rows.len() as int);
        match max_distance {
            Some(ceiling) => within(ranked, distances, ceiling),
            None => ranked,
        }
    }
}

/// The results for a run of picked rows: the content and distance of each.
pub open spec fn results_of(
    rows: Seq<(Seq<char>, Seq<char>, Seq<u32>)>,
    distances: Seq<u32>,
    picks: Seq<int>,
) -> Seq<(Seq<char>, u32)> {
    Seq::new(picks.len(), |i: int| (rows[picks[i]].1, distances[picks[i]]))
}

/// The positions held in a list of picks.
pub open spec fn positions(picks: Seq<usize>) -> Seq<int> {
    Seq::new(picks.len(), |i: int| picks[i] as int)
}

proof fn lemma_nearest_in_range(
    rows: Seq<(Seq<char>, Seq<char>, Seq<u32>)>,
    distances: Seq<u32>,
    min_content_chars: nat,
    top_k: nat,
    n: int,
)
    requires
        n <= rows.len(),
    ensures
        nearest(rows, distances, min_content_chars, top_k, n).len() <= top_k,
        forall|a: int|
            0 <= a < nearest(rows, distances, min_content_chars, top_k, n).len() ==> eligible(
                rows,
                distances,
                min_content_chars,
                #[trigger] nearest(rows, distances, min_content_chars, top_k, n)[a],
            ) && nearest(rows, distances, min_content_chars, top_k, n)[a] < n,
    decreases n,
{
    if n > 0 {
        lemma_nearest_in_range(rows, distances, min_content_chars, top_k, n - 1);
        let before = nearest(rows, distances, min_content_chars, top_k, n - 1);
        if eligible(rows, distances, min_content_chars, n - 1) {
            lemma_slot_bounds(before, distances, distances[n - 1]);
        }
    }
}

proof fn lemma_slot_bounds(picks: Seq<int>, distances: Seq<u32>, key: u32)
    ensures
        0 <= slot(picks, distances, key) <= picks.len(),
    decreases picks.len(),
{
    if picks.len() > 0 {
        lemma_slot_bounds(picks.drop_last(), distances, key);
    }
}

/// Finds where a row at distance `key` goes into the ranked picks.
fn find_slot(picks: &Vec<usize>, distances: &Vec<u32>, key: u32) -> (p: usize)
    requires
        forall|a: int| 0 <= a < picks.len() ==> (#[trigger] picks[a]) < distances.len(),
    ensures
        p == slot(positions(picks@), distances@, key),
        p <= picks.len(),
{
    let mut p: usize = picks.len();
    let ghost all = positions(picks@);
    assert(all.take(p as int) == all);
    while p > 0 && distances[picks[p - 1]] > key
        invariant
            p <= picks.len(),
            all == positions(picks@),
            forall|a: int| 0 <= a < picks.len() ==> (#[trigger] picks[a]) < distances.len(),
            slot(all.take(p as int), distances@, key) == slot(all, distances@, key),
        decreases p,
    {
        assert(all.take(p as int).drop_last() == all.take(p - 1));
        p -= 1;
    }
    proof {
        lemma_slot_bounds(all, distances@, key);
        if p > 0 {
            assert(all.take(p as int).last() == picks[p - 1] as int);
        }
    }
    p
}

impl Corpus {
    /// Ranks the records that can be retrieved by their distance to the
    /// query and picks the positions of the `top_k` nearest, nearest first;
    /// records at the same distance stay in storage order. `distances[i]` is
    /// the distance of record `i`.
    pub fn rank(&self, distances: &Vec<u32>, top_k: usize, min_content_chars: usize) -> (picks: Vec<
        usize,
    >)
        ensures
            positions(picks@) == nearest(
                self@,
                distances@,
                min_content_chars as nat,
                top_k as nat,
                self@.len() as int,
            ),
    {
        let mut picks: Vec<usize> = Vec::new();
        let mut n: usize = 0;
        let ghost rows = self@;
        while n < self.records.len()
            invariant
                n <= self.records.len(),
                rows == self@,
                positions(picks@) == nearest(
                    rows,
                    distances@,
                    min_content_chars as nat,
                    top_k as nat,
                    n as int,
                ),
                picks.len() <= top_k,
                forall|a: int| 0 <= a < picks.len() ==> (#[trigger] picks[a]) < distances.len(),
            decreases self.records.len() - n,
        {
            let record = &self.records[n];
            if n < distances.len() && record.embedding.len() > 0
                && record.content.as_str().unicode_len() > min_content_chars {
                assert(eligible(rows, distances@, min_content_chars as nat, n as int));
                let p = find_slot(&picks, distances, distances[n]);
                let ghost before = positions(picks@);
                if p < top_k {
                    picks.insert(p, n);
                    assert(positions(picks@) == before.insert(p as int, n as int));
                    if picks.len() > top_k {
                        picks.truncate(top_k);
                        assert(positions(picks@) == before.insert(p as int, n as int).take(
                            top_k as int,
                        ));
                    }
                } else {
                    assert(before.insert(p as int, n as int).take(top_k as int) == before);
                }
            }
            n += 1;
        }
        picks
    }
}

impl Corpus {
    /// Retrieves for a query the most similar records, nearest first. With
    /// an empty query embedding nothing is retrieved. The records that have
    /// an embedding and more than `min_content_chars` characters of content
    /// are ranked by ascending distance, ties in storage order; the first
    /// `top_k` are taken; of those, where `max_distance` is set, only the
    /// ones within it are returned.
    pub fn retrieve(
        &self,
        query_embedding: &Vec<u32>,
        distances: &Vec<u32>,
        top_k: usize,
        min_content_chars: usize,
        max_distance: Option<u32>,
    ) -> (results: Vec<QueryResult>)
        ensures
            result_views(results@) == results_of(
                self@,
                distances@,
                retrieved(
                    self@,
                    query_embedding@,
                    distances@,
                    top_k as nat,
                    min_content_chars as nat,
                    max_distance,
                ),
            ),
    {
        let mut results: Vec<QueryResult> = Vec::new();
        if query_embedding.len() == 0 {
            assert(result_views(results@) == results_of(self@, distances@, Seq::<int>::empty()));
            return results;
        }
        let picks = self.rank(distances, top_k, min_content_chars);
        let ghost rows = self@;
        let ghost ranked = positions(picks@);
        let ghost kept = Seq::<int>::empty();
        proof {
            lemma_nearest_in_range(
                rows,
                distances@,
                min_content_chars as nat,
                top_k as nat,
                rows.len() as int,
            );
            assert(ranked.take(0).len() == 0);
            assert(result_views(results@) == results_of(rows, distances@, kept));
            assert forall|a: int| 0 <= a < picks.len() implies (#[trigger] picks[a])
                < distances.len() && picks[a] < self.records.len() by {
                assert(ranked[a] == picks[a] as int);
                assert(eligible(rows, distances@, min_content_chars as nat, ranked[a]));
            }
        }
        let mut i: usize = 0;
        while i < picks.len()
            invariant
                i <= picks.len(),
                rows == self@,
                ranked == positions(picks@),
                forall|a: int|
                    0 <= a < picks.len() ==> (#[trigger] picks[a]) < distances.len() && picks[a]
                        < self.records.len(),
                kept == match max_distance {
                    Some(ceiling) => within(ranked.take(i as int), distances@, ceiling),
                    None => ranked.take(i as int),
                },
                result_views(results@) == results_of(rows, distances@, kept),
            decreases picks.len() - i,
        {
            proof {
                assert(ranked.take(i + 1).drop_last() == ranked.take(i as int));
                assert(ranked.take(i + 1).last() == picks[i as int] as int);
                assert(ranked.take(i + 1) == ranked.take(i as int).push(picks[i as int] as int));
            }
            let at = picks[i];
            let distance = distances[at];
            let keep = match max_distance {
                Some(ceiling) => distance <= ceiling,
                None => true,
            };
            if keep {
                let ghost before = results@;
                let result = QueryResult { content: self.records[at].content.clone(), distance };
                results.push(result);
                proof {
                    kept = kept.push(at as int);
                    assert(result_views(results@) == result_views(before).push(result@));
                    assert(results_of(rows, distances@, kept) == results_of(
                        rows,
                        distances@,
                        kept.drop_last(),
                    ).push(result@));
                    assert(kept.drop_last() == match max_distance {
                        Some(ceiling) => within(ranked.take(i as int), distances@, ceiling),
                        None => ranked.take(i as int),
                    });
                }
            }
            i += 1;
        }
        assert(ranked.take(picks.len() as int) == ranked);
        results
    }
}

/// Whether row `x` ranks before row `y`: it is nearer, or as near and
/// stored earlier.
pub open spec fn ranks_before(distances: Seq<u32>, x: int, y: int) -> bool {
    distances[x] < distances[y] || (distances[x] == distances[y] && x < y)
}

/// Whether the picks stand in rank order.
pub open spec fn ranked(picks: Seq<int>, distances: Seq<u32>) -> bool {
    forall|a: int, b: int|
        0 <= a < b < picks.len() ==> ranks_before(distances, #[trigger] picks[a], #[trigger] picks[b])
}

proof fn lemma_slot_splits(picks: Seq<int>, distances: Seq<u32>, key: u32)
    requires
        ranked(picks, distances),
    ensures
        0 <= slot(picks, distances, key) <= picks.len(),
        forall|a: int|
            0 <= a < slot(picks, distances, key) ==> distances[#[trigger] picks[a]] <= key,
        forall|a: int|
            slot(picks, distances, key) <= a < picks.len() ==> distances[#[trigger] picks[a]]
                > key,
    decreases picks.len(),
{
    if picks.len() > 0 {
        let rest = picks.drop_last();
        assert forall|a: int, b: int| 0 <= a < b < rest.len() implies ranks_before(
            distances,
            #[trigger] rest[a],
            #[trigger] rest[b],
        ) by {
            assert(rest[a] == picks[a] && rest[b] == picks[b]);
        }
        lemma_slot_splits(rest, distances, key);
        if distances[picks.last()] <= key {
            assert forall|a: int| 0 <= a < picks.len() implies distances[#[trigger] picks[a]]
                <= key by {
                if a < picks.len() - 1 {
                    assert(ranks_before(distances, picks[a], picks[picks.len() - 1]));
                }
            }
        } else {
            assert forall|a: int|
                slot(picks, distances, key) <= a < picks.len() implies distances[#[trigger] picks[a]]
                > key by {
                if a < picks.len() - 1 {
                    assert(rest[a] == picks[a]);
                }
            }
            assert forall|a: int| 0 <= a < slot(picks, distances, key) implies distances[#[trigger] picks[a]]
                <= key by {
                assert(rest[a] == picks[a]);
            }
        }
    }
}

/// The ranking is in rank order: distances never decrease along it, and
/// rows at the same distance stand in storage order.
pub proof fn lemma_nearest_ranked(
    rows: Seq<(Seq<char>, Seq<char>, Seq<u32>)>,
    distances: Seq<u32>,
    min_content_chars: nat,
    top_k: nat,
    n: int,
)
    requires
        n <= rows.len(),
    ensures
        ranked(nearest(rows, distances, min_content_chars, top_k, n), distances),
    decreases n,
{
    if n > 0 {
        let before = nearest(rows, distances, min_content_chars, top_k, n - 1);
        lemma_nearest_ranked(rows, distances, min_content_chars, top_k, n - 1);
        lemma_nearest_in_range(rows, distances, min_content_chars, top_k, n - 1);
        if eligible(rows, distances, min_content_chars, n - 1) {
            let grown = before.insert(slot(before, distances, distances[n - 1]), n - 1);
            assert forall|a: int| 0 <= a < before.len() implies (#[trigger] before[a]) < n - 1 by {}
            lemma_grown_ranked(before, distances, n - 1);
            if grown.len() > top_k {
                let cut = grown.take(top_k as int);
                assert forall|a: int, b: int| 0 <= a < b < cut.len() implies ranks_before(
                    distances,
                    #[trigger] cut[a],
                    #[trigger] cut[b],
                ) by {
                    assert(cut[a] == grown[a] && cut[b] == grown[b]);
                }
            }
        }
    }
}

proof fn lemma_within_order(picks: Seq<int>, distances: Seq<u32>, ceiling: u32)
    requires
        ranked(picks, distances),
    ensures
        ranked(within(picks, distances, ceiling), distances),
        within(picks, distances, ceiling).len() <= picks.len(),
        forall|a: int|
            0 <= a < within(picks, distances, ceiling).len() ==> distances[#[trigger] within(
                picks,
                distances,
                ceiling,
            )[a]] <= ceiling && picks.contains(within(picks, distances, ceiling)[a]),
    decreases picks.len(),
{
    if picks.len() > 0 {
        let rest = picks.drop_last();
        assert forall|a: int, b: int| 0 <= a < b < rest.len() implies ranks_before(
            distances,
            #[trigger] rest[a],
            #[trigger] rest[b],
        ) by {
            assert(rest[a] == picks[a] && rest[b] == picks[b]);
        }
        lemma_within_order(rest, distances, ceiling);
        let inner = within(rest, distances, ceiling);
        let out = within(picks, distances, ceiling);
        assert forall|a: int| 0 <= a < out.len() implies distances[#[trigger] out[a]] <= ceiling
            && picks.contains(out[a]) by {
            if a < inner.len() {
                assert(out[a] == inner[a]);
                let j = choose|j: int| 0 <= j < rest.len() && rest[j] == inner[a];
                assert(picks[j] == inner[a]);
            } else {
                assert(picks[picks.len() - 1] == out[a]);
            }
        }
        assert forall|a: int, b: int| 0 <= a < b < out.len() implies ranks_before(
            distances,
            #[trigger] out[a],
            #[trigger] out[b],
        ) by {
            assert(out[a] == inner[a]);
            if b < inner.len() {
                assert(out[b] == inner[b]);
            } else {
                let j = choose|j: int| 0 <= j < rest.len() && rest[j] == inner[a];
                assert(picks[j] == inner[a]);
                assert(ranks_before(distances, picks[j], picks[picks.len() - 1]));
            }
        }
    }
}

/// Retrieval ordering: at most `top_k` rows are retrieved, their distances
/// never decrease, rows at the same distance stand in storage order, every
/// retrieved row has an embedding and enough content, and with a ceiling
/// set no retrieved row is farther than it.
pub proof fn lemma_retrieval_ordered(
    rows: Seq<(Seq<char>, Seq<char>, Seq<u32>)>,
    query_embedding: Seq<u32>,
    distances: Seq<u32>,
    top_k: nat,
    min_content_chars: nat,
    max_distance: Option<u32>,
)
    ensures
        retrieved(rows, query_embedding, distances, top_k, min_content_chars, max_distance).len()
            <= top_k,
        ranked(
            retrieved(rows, query_embedding, distances, top_k, min_content_chars, max_distance),
            distances,
        ),
        forall|a: int, b: int|
            0 <= a <= b < retrieved(
                rows,
                query_embedding,
                distances,
                top_k,
                min_content_chars,
                max_distance,
            ).len() ==> distances[#[trigger] retrieved(
                rows,
                query_embedding,
                distances,
                top_k,
                min_content_chars,
                max_distance,
            )[a]] <= distances[#[trigger] retrieved(
                rows,
                query_embedding,
                distances,
                top_k,
                min_content_chars,
                max_distance,
            )[b]],
        forall|a: int|
            0 <= a < retrieved(
                rows,
                query_embedding,
                distances,
                top_k,
                min_content_chars,
                max_distance,
            ).len() ==> eligible(
                rows,
                distances,
                min_content_chars,
                #[trigger] retrieved(
                    rows,
                    query_embedding,
                    distances,
                    top_k,
                    min_content_chars,
                    max_distance,
                )[a],
            ),
        forall|a: int|
            max_distance is Some && 0 <= a < retrieved(
                rows,
                query_embedding,
                distances,
                top_k,
                min_content_chars,
                max_distance,
            ).len() ==> distances[#[trigger] retrieved(
                rows,
                query_embedding,
                distances,
                top_k,
                min_content_chars,
                max_distance,
            )[a]] <= max_distance->0,
{
    let all = nearest(rows, distances, min_content_chars, top_k, rows.len() as int);
    lemma_nearest_ranked(rows, distances, min_content_chars, top_k, rows.len() as int);
    lemma_nearest_in_range(rows, distances, min_content_chars, top_k, rows.len() as int);
    if max_distance is Some {
        lemma_within_order(all, distances, max_distance->0);
    }
    let out = retrieved(rows, query_embedding, distances, top_k, min_content_chars, max_distance);
    assert forall|a: int, b: int| 0 <= a <= b < out.len() implies distances[#[trigger] out[a]]
        <= distances[#[trigger] out[b]] by {
        if a < b {
            assert(ranks_before(distances, out[a], out[b]));
        }
    }
    assert forall|a: int| 0 <= a < out.len() implies eligible(
        rows,
        distances,
        min_content_chars,
        #[trigger] out[a],
    ) by {
        if max_distance is Some {
            assert(all.contains(out[a]));
            let j = choose|j: int| 0 <= j < all.len() && all[j] == out[a];
            assert(eligible(rows, distances, min_content_chars, all[j]));
        } else {
            assert(eligible(rows, distances, min_content_chars, all[a]));
        }
    }
}

proof fn lemma_grown_ranked(before: Seq<int>, distances: Seq<u32>, x: int)
    requires
        ranked(before, distances),
        forall|a: int| 0 <= a < before.len() ==> (#[trigger] before[a]) < x,
    ensures
        ranked(before.insert(slot(before, distances, distances[x]), x), distances),
{
    let key = distances[x];
    let p = slot(before, distances, key);
    lemma_slot_splits(before, distances, key);
    let grown = before.insert(p, x);
    assert forall|a: int, b: int| 0 <= a < b < grown.len() implies ranks_before(
        distances,
        #[trigger] grown[a],
        #[trigger] grown[b],
    ) by {
        if b < p {
            assert(grown[a] == before[a] && grown[b] == before[b]);
        } else if b == p {
            assert(grown[a] == before[a]);
            assert(before[a] < x);
        } else if a < p {
            assert(grown[a] == before[a] && grown[b] == before[b - 1]);
            if a != b - 1 {
                assert(ranks_before(distances, before[a], before[b - 1]));
            }
        } else if a == p {
            assert(grown[b] == before[b - 1]);
        } else {
            assert(grown[a] == before[a - 1] && grown[b] == before[b - 1]);
        }
    }
}

/// Closest first: a row that can be retrieved and is not among the ranked
/// rows was left out only because the ranking is full, and every ranked row
/// ranks before it.
pub proof fn lemma_nearest_is_closest(
    rows: Seq<(Seq<char>, Seq<char>, Seq<u32>)>,
    distances: Seq<u32>,
    min_content_chars: nat,
    top_k: nat,
    n: int,
    j: int,
)
    requires
        n <= rows.len(),
        0 <= j < n,
        eligible(rows, distances, min_content_chars, j),
        !nearest(rows, distances, min_content_chars, top_k, n).contains(j),
    ensures
        nearest(rows, distances, min_content_chars, top_k, n).len() == top_k,
        forall|a: int|
            0 <= a < top_k ==> ranks_before(
                distances,
                #[trigger] nearest(rows, distances, min_content_chars, top_k, n)[a],
                j,
            ),
    decreases n,
{
    let before = nearest(rows, distances, min_content_chars, top_k, n - 1);
    let now = nearest(rows, distances, min_content_chars, top_k, n);
    lemma_nearest_ranked(rows, distances, min_content_chars, top_k, n - 1);
    lemma_nearest_in_range(rows, distances, min_content_chars, top_k, n - 1);
    if !eligible(rows, distances, min_content_chars, n - 1) {
        lemma_nearest_is_closest(rows, distances, min_content_chars, top_k, n - 1, j);
    } else {
        let key = distances[n - 1];
        let p = slot(before, distances, key);
        lemma_slot_splits(before, distances, key);
        let grown = before.insert(p, n - 1);
        assert forall|a: int| 0 <= a < before.len() implies (#[trigger] before[a]) < n - 1 by {}
        lemma_grown_ranked(before, distances, n - 1);
        assert(grown[p] == n - 1);
        if grown.len() <= top_k {
            assert(now == grown);
            assert(j != n - 1);
            if before.contains(j) {
                let i = choose|i: int| 0 <= i < before.len() && before[i] == j;
                if i < p {
                    assert(grown[i] == j);
                } else {
                    assert(grown[i + 1] == j);
                }
                assert(false);
            }
            lemma_nearest_is_closest(rows, distances, min_content_chars, top_k, n - 1, j);
            assert(false);
        } else {
            let cut = grown.take(top_k as int);
            assert(now == cut);
            assert(before.len() == top_k);
            assert forall|a: int| 0 <= a < top_k implies ranks_before(
                distances,
                #[trigger] now[a],
                j,
            ) by {
                assert(cut[a] == grown[a]);
                if j == n - 1 {
                    if p < top_k {
                        assert(cut[p] == j);
                        assert(false);
                    }
                    assert(grown[a] == before[a]);
                } else if before.contains(j) {
                    let i = choose|i: int| 0 <= i < before.len() && before[i] == j;
                    if i < p {
                        assert(grown[i] == j);
                        assert(cut[i] == j);
                        assert(false);
                    } else {
                        assert(grown[i + 1] == j);
                        if i + 1 < top_k {
                            assert(cut[i + 1] == j);
                            assert(false);
                        }
                        assert(ranks_before(distances, grown[a], grown[i + 1]));
                    }
                } else {
                    lemma_nearest_is_closest(rows, distances, min_content_chars, top_k, n - 1, j);
                    if a < p {
                        assert(grown[a] == before[a]);
                    } else if a == p {
                        assert(ranks_before(distances, before[p], j));
                    } else {
                        assert(grown[a] == before[a - 1]);
                    }
                }
            }
        }
    }
}

} // verus!
