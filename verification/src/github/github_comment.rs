use crate::base::string::{decimal, push_decimal, same_text};
use crate::configs::config::Config;
use crate::files::parse::texts;
use crate::qa::retriever::positions;
use url::Url;
use vstd::prelude::*;

verus! {

/// Watches pull requests for comments that ask for a summary.
pub struct GithubComment {
    pub conf: Config,
}

/// Why a repository address names no repository.
pub enum RepoUrlError {
    /// The address is no absolute URL.
    Invalid,
    /// The URL has no path to cut into segments.
    NoPath,
    /// The path does not name a repository after the owner.
    NoRepo,
}

/// The path segments that `url::Url::path_segments` gives for the URL that
/// `url::Url::parse` reads from `address`: `None` where the address does
/// not parse, `Some(None)` where the URL cannot be a base.
pub uninterp spec fn url_path_segments(address: Seq<char>) -> Option<Option<Seq<Seq<char>>>>;

/// The texts of what the parser handed back.
pub open spec fn segment_texts(path: Option<Option<Vec<String>>>) -> Option<Option<Seq<Seq<char>>>> {
    match path {
        Some(Some(segments)) => Some(Some(texts(segments@))),
        Some(None) => Some(None),
        None => None,
    }
}

/// Reads `address` with `url::Url::parse` and cuts its path into segments
/// with `url::Url::path_segments`. Nothing is proved of the outcome; it is
/// only given its name.
#[verifier::external_body]
fn path_segments(address: &str) -> (path: Option<Option<Vec<String>>>)
    ensures
        segment_texts(path) == url_path_segments(address@),
{
    match Url::parse(address) {
        Ok(url) => Some(url.path_segments().map(|parts| parts.map(|part| part.to_string()).collect())),
        Err(_) => None,
    }
}

/// The comment that asks for a summary.
pub open spec fn summary_keyword() -> Seq<char> {
    "askbend:summary"@
}

/// The heading under which a summary is posted.
pub open spec fn summary_heading() -> Seq<char> {
    "## PR Summary(By [llmchain.rs](https://github.com/shafishlabs/llmchain.rs)):\n"@
}

/// What is answered in place of a summary for a pull request of `tokens`
/// tokens where at most `max_tokens` are summarised.
pub open spec fn too_large_text(tokens: nat, max_tokens: nat) -> Seq<char> {
    "The PR is too large to summarize, tokens: "@ + decimal(tokens) + ", max tokens: "@ + decimal(
        max_tokens,
    )
}

impl GithubComment {
    /// A watcher with its own copy of the settings.
    pub fn create(conf: &Config) -> (watcher: GithubComment)
        ensures
            watcher.conf.same(conf),
    {
        GithubComment { conf: conf.clone() }
    }

    /// Names owner and repository from the path of a repository URL: its
    /// first two segments.
    pub fn owner_and_repo(path: Option<Option<Vec<String>>>) -> (r: Result<
        (String, String),
        RepoUrlError,
    >)
        ensures
            match r {
                Ok(names) => path matches Some(Some(segments)) && segments@.len() >= 2
                    && names.0@ == segments@[0]@ && names.1@ == segments@[1]@,
                Err(RepoUrlError::Invalid) => path is None,
                Err(RepoUrlError::NoPath) => path == Some(None::<Vec<String>>),
                Err(RepoUrlError::NoRepo) => path matches Some(Some(segments)) && segments@.len()
                    < 2,
            },
    {
        match path {
            None => Err(RepoUrlError::Invalid),
            Some(None) => Err(RepoUrlError::NoPath),
            Some(Some(segments)) => {
                if segments.len() < 2 {
                    Err(RepoUrlError::NoRepo)
                } else {
                    Ok((segments[0].clone(), segments[1].clone()))
                }
            },
        }
    }

    /// Names owner and repository of a repository URL.
    pub fn parse_github_repo(url: &str) -> (r: Result<(String, String), RepoUrlError>)
        ensures
            match r {
                Ok(names) => url_path_segments(url@) matches Some(Some(segments)) && segments.len()
                    >= 2 && names.0@ == segments[0] && names.1@ == segments[1],
                Err(RepoUrlError::Invalid) => url_path_segments(url@) is None,
                Err(RepoUrlError::NoPath) => url_path_segments(url@) == Some(
                    None::<Seq<Seq<char>>>,
                ),
                Err(RepoUrlError::NoRepo) => url_path_segments(url@) matches Some(Some(segments))
                    && segments.len() < 2,
            },
    {
        Self::owner_and_repo(path_segments(url))
    }

    /// Whether a comment asks for a summary: its body is the keyword and
    /// nothing else.
    pub fn asks_for_summary(body: &Option<String>) -> (asks: bool)
        ensures
            asks == (body matches Some(text) && text@ == summary_keyword()),
    {
        match body {
            Some(text) => same_text(text.as_str(), "askbend:summary"),
            None => false,
        }
    }

    /// Writes the comment that posts a summary.
    pub fn summary_comment(summary: &str) -> (comment: String)
        ensures
            comment@ == summary_heading() + summary@,
    {
        let mut out = String::new();
        out.append("## PR Summary(By [llmchain.rs](https://github.com/shafishlabs/llmchain.rs)):\n");
        out.append(summary);
        out
    }

    /// Says that a pull request is too large to summarise, where it is: it
    /// has more tokens than the settings allow.
    pub fn too_large(&self, tokens: usize) -> (message: Option<String>)
        ensures
            tokens <= self.conf.github.llm_max_tokens ==> message is None,
            tokens > self.conf.github.llm_max_tokens ==> message is Some && message->0@
                == too_large_text(tokens as nat, self.conf.github.llm_max_tokens as nat),
    {
        if tokens <= self.conf.github.llm_max_tokens {
            return None;
        }
        let mut out = String::new();
        out.append("The PR is too large to summarize, tokens: ");
        push_decimal(&mut out, tokens);
        out.append(", max tokens: ");
        push_decimal(&mut out, self.conf.github.llm_max_tokens);
        Some(out)
    }
}

/// A comment on a pull request: its number, its text and the time it was
/// written, in seconds since the epoch.
pub struct Comment {
    pub id: u64,
    pub body: Option<String>,
    pub created_at: i64,
}

/// The times of a run of comments.
pub open spec fn times_of(comments: Seq<Comment>) -> Seq<i64> {
    Seq::new(comments.len(), |i: int| comments[i].created_at)
}

/// Where a comment written at `time` goes into `order`: behind every
/// comment that is no older, so that comments of the same time stay in the
/// order in which they came.
pub open spec fn newer_slot(order: Seq<int>, times: Seq<i64>, time: i64) -> int
    decreases order.len(),
{
    if order.len() == 0 {
        0
    } else if times[order.last()] >= time {
        order.len() as int
    } else {
        newer_slot(order.drop_last(), times, time)
    }
}

/// The first `n` comments, newest first.
pub open spec fn newest_first(times: Seq<i64>, n: int) -> Seq<int>
    decreases n,
{
    if n <= 0 {
        Seq::empty()
    } else {
        let before = newest_first(times, n - 1);
        before.insert(newer_slot(before, times, times[n - 1]), n - 1)
    }
}

/// Whether comment `x` comes before comment `y`: it is newer, or as new and
/// came earlier.
pub open spec fn comes_before(times: Seq<i64>, x: int, y: int) -> bool {
    times[x] > times[y] || (times[x] == times[y] && x < y)
}

/// The numbers of the comments that ask for a summary, in the given order.
pub open spec fn requests_in(comments: Seq<Comment>, order: Seq<int>) -> Seq<u64>
    decreases order.len(),
{
    if order.len() == 0 {
        Seq::empty()
    } else {
        let last = comments[order.last()];
        if last.body matches Some(text) && text@ == summary_keyword() {
            requests_in(comments, order.drop_last()).push(last.id)
        } else {
            requests_in(comments, order.drop_last())
        }
    }
}

proof fn lemma_newer_slot_bounds(order: Seq<int>, times: Seq<i64>, time: i64)
    ensures
        0 <= newer_slot(order, times, time) <= order.len(),
    decreases order.len(),
{
    if order.len() > 0 {
        lemma_newer_slot_bounds(order.drop_last(), times, time);
    }
}

proof fn lemma_newest_first_range(times: Seq<i64>, n: int)
    requires
        0 <= n <= times.len(),
    ensures
        newest_first(times, n).len() == n,
        forall|a: int| 0 <= a < n ==> 0 <= (#[trigger] newest_first(times, n)[a]) < n,
    decreases n,
{
    if n > 0 {
        lemma_newest_first_range(times, n - 1);
        let before = newest_first(times, n - 1);
        lemma_newer_slot_bounds(before, times, times[n - 1]);
        let p = newer_slot(before, times, times[n - 1]);
        let now = before.insert(p, n - 1);
        assert forall|a: int| 0 <= a < n implies 0 <= (#[trigger] now[a]) < n by {
            if a < p {
                assert(now[a] == before[a]);
            } else if a > p {
                assert(now[a] == before[a - 1]);
            }
        }
    }
}

proof fn lemma_newer_slot_splits(order: Seq<int>, times: Seq<i64>, time: i64)
    requires
        forall|a: int, b: int|
            0 <= a < b < order.len() ==> comes_before(times, #[trigger] order[a], #[trigger] order[b]),
    ensures
        forall|a: int|
            0 <= a < newer_slot(order, times, time) ==> times[#[trigger] order[a]] >= time,
        forall|a: int|
            newer_slot(order, times, time) <= a < order.len() ==> times[#[trigger] order[a]]
                < time,
    decreases order.len(),
{
    if order.len() > 0 {
        let rest = order.drop_last();
        assert forall|a: int, b: int| 0 <= a < b < rest.len() implies comes_before(
            times,
            #[trigger] rest[a],
            #[trigger] rest[b],
        ) by {
            assert(rest[a] == order[a] && rest[b] == order[b]);
        }
        lemma_newer_slot_splits(rest, times, time);
        lemma_newer_slot_bounds(rest, times, time);
        if times[order.last()] >= time {
            assert forall|a: int| 0 <= a < order.len() implies times[#[trigger] order[a]]
                >= time by {
                if a < order.len() - 1 {
                    assert(comes_before(times, order[a], order[order.len() - 1]));
                }
            }
        } else {
            assert forall|a: int|
                newer_slot(order, times, time) <= a < order.len() implies times[#[trigger] order[a]]
                < time by {
                if a < order.len() - 1 {
                    assert(rest[a] == order[a]);
                }
            }
            assert forall|a: int| 0 <= a < newer_slot(order, times, time) implies times[#[trigger] order[a]]
                >= time by {
                assert(rest[a] == order[a]);
            }
        }
    }
}

/// The comments are handled newest first; comments of the same time are
/// handled in the order in which they came; and each comment is handled
/// once.
pub proof fn lemma_newest_first_ordered(times: Seq<i64>, n: int)
    requires
        0 <= n <= times.len(),
    ensures
        newest_first(times, n).len() == n,
        forall|a: int| 0 <= a < n ==> 0 <= (#[trigger] newest_first(times, n)[a]) < n,
        forall|a: int, b: int|
            0 <= a < b < n ==> comes_before(
                times,
                #[trigger] newest_first(times, n)[a],
                #[trigger] newest_first(times, n)[b],
            ),
    decreases n,
{
    lemma_newest_first_range(times, n);
    if n > 0 {
        lemma_newest_first_ordered(times, n - 1);
        let before = newest_first(times, n - 1);
        let time = times[n - 1];
        let p = newer_slot(before, times, time);
        lemma_newer_slot_bounds(before, times, time);
        lemma_newer_slot_splits(before, times, time);
        let now = before.insert(p, n - 1);
        assert forall|a: int, b: int| 0 <= a < b < n implies comes_before(
            times,
            #[trigger] now[a],
            #[trigger] now[b],
        ) by {
            if b < p {
                assert(now[a] == before[a] && now[b] == before[b]);
            } else if b == p {
                assert(now[a] == before[a]);
            } else if a < p {
                assert(now[a] == before[a] && now[b] == before[b - 1]);
                if a != b - 1 {
                    assert(comes_before(times, before[a], before[b - 1]));
                }
            } else if a == p {
                assert(now[b] == before[b - 1]);
            } else {
                assert(now[a] == before[a - 1] && now[b] == before[b - 1]);
            }
        }
    }
}

impl GithubComment {
    /// Puts the comments of a pull request in the order in which they are
    /// handled: newest first.
    pub fn order_comments(comments: &Vec<Comment>) -> (order: Vec<usize>)
        ensures
            positions(order@) == newest_first(times_of(comments@), comments@.len() as int),
    {
        let mut order: Vec<usize> = Vec::new();
        let ghost times = times_of(comments@);
        let mut n: usize = 0;
        while n < comments.len()
            invariant
                n <= comments.len(),
                times == times_of(comments@),
                positions(order@) == newest_first(times, n as int),
                order.len() == n,
                forall|a: int| 0 <= a < order.len() ==> (#[trigger] order[a]) < comments.len(),
            decreases comments.len() - n,
        {
            let time = comments[n].created_at;
            let ghost before = positions(order@);
            let mut p: usize = order.len();
            assert(before.take(p as int) == before);
            while p > 0 && comments[order[p - 1]].created_at < time
                invariant
                    p <= order.len(),
                    before == positions(order@),
                    times == times_of(comments@),
                    forall|a: int|
                        0 <= a < order.len() ==> (#[trigger] order[a]) < comments.len(),
                    newer_slot(before.take(p as int), times, time) == newer_slot(
                        before,
                        times,
                        time,
                    ),
                decreases p,
            {
                assert(before.take(p as int).drop_last() == before.take(p - 1));
                p -= 1;
            }
            proof {
                lemma_newer_slot_bounds(before, times, time);
                if p > 0 {
                    assert(before.take(p as int).last() == order[p - 1] as int);
                }
            }
            order.insert(p, n);
            assert(positions(order@) == before.insert(p as int, n as int));
            n += 1;
        }
        order
    }

    /// Lists the comments of a pull request that ask for a summary, newest
    /// first, each by its number.
    pub fn summary_requests(comments: &Vec<Comment>) -> (requests: Vec<u64>)
        ensures
            requests@ == requests_in(
                comments@,
                newest_first(times_of(comments@), comments@.len() as int),
            ),
    {
        let order = Self::order_comments(comments);
        let ghost all = positions(order@);
        proof {
            lemma_newest_first_range(times_of(comments@), comments@.len() as int);
        }
        let mut requests: Vec<u64> = Vec::new();
        let mut i: usize = 0;
        assert(all.take(0).len() == 0);
        while i < order.len()
            invariant
                i <= order.len(),
                all == positions(order@),
                forall|a: int| 0 <= a < all.len() ==> 0 <= (#[trigger] all[a]) < comments.len(),
                requests@ == requests_in(comments@, all.take(i as int)),
            decreases order.len() - i,
        {
            proof {
                assert(all.take(i + 1).drop_last() == all.take(i as int));
                assert(all.take(i + 1).last() == order[i as int] as int);
                assert(0 <= all[i as int] < comments.len());
            }
            let comment = &comments[order[i]];
            if Self::asks_for_summary(&comment.body) {
                requests.push(comment.id);
            }
            i += 1;
        }
        assert(all.take(order.len() as int) == all);
        requests
    }
}

/// When each repository was last scanned, in seconds since the epoch. The
/// state of the polling loop: each round takes it and hands it on.
pub struct ScanState {
    pub scans: Vec<(String, i64)>,
}

/// The map that a run of entries stands for; a later entry for a repository
/// replaces an earlier one.
pub open spec fn scan_map(scans: Seq<(String, i64)>) -> Map<Seq<char>, i64>
    decreases scans.len(),
{
    if scans.len() == 0 {
        Map::empty()
    } else {
        scan_map(scans.drop_last()).insert(scans.last().0@, scans.last().1)
    }
}

proof fn lemma_scan_map_update(scans: Seq<(String, i64)>, at: int, entry: (String, i64))
    requires
        0 <= at < scans.len(),
        scans[at].0@ == entry.0@,
        forall|j: int| at < j < scans.len() ==> (#[trigger] scans[j]).0@ != entry.0@,
    ensures
        scan_map(scans.update(at, entry)) == scan_map(scans).insert(entry.0@, entry.1),
    decreases scans.len(),
{
    let changed = scans.update(at, entry);
    if at == scans.len() - 1 {
        assert(changed.drop_last() == scans.drop_last());
        assert(scan_map(scans.drop_last()).insert(scans.last().0@, scans.last().1).insert(
            entry.0@,
            entry.1,
        ) == scan_map(scans.drop_last()).insert(entry.0@, entry.1));
    } else {
        assert(changed.drop_last() == scans.drop_last().update(at, entry));
        assert(changed.last() == scans.last());
        assert(scans[scans.len() - 1].0@ != entry.0@);
        assert forall|j: int| at < j < scans.drop_last().len() implies (#[trigger] scans.drop_last()[j]).0@
            != entry.0@ by {
            assert(scans.drop_last()[j] == scans[j]);
        }
        lemma_scan_map_update(scans.drop_last(), at, entry);
        assert(scan_map(scans.drop_last()).insert(entry.0@, entry.1).insert(
            scans.last().0@,
            scans.last().1,
        ) == scan_map(scans.drop_last()).insert(scans.last().0@, scans.last().1).insert(
            entry.0@,
            entry.1,
        ));
    }
}

proof fn lemma_scan_map_miss(scans: Seq<(String, i64)>, repo: Seq<char>)
    requires
        forall|j: int| 0 <= j < scans.len() ==> (#[trigger] scans[j]).0@ != repo,
    ensures
        !scan_map(scans).dom().contains(repo),
    decreases scans.len(),
{
    if scans.len() > 0 {
        assert(scans[scans.len() - 1].0@ != repo);
        assert forall|j: int| 0 <= j < scans.drop_last().len() implies (#[trigger] scans.drop_last()[j]).0@
            != repo by {
            assert(scans.drop_last()[j] == scans[j]);
        }
        lemma_scan_map_miss(scans.drop_last(), repo);
    }
}

proof fn lemma_scan_map_hit(scans: Seq<(String, i64)>, at: int)
    requires
        0 <= at < scans.len(),
        forall|j: int| at < j < scans.len() ==> (#[trigger] scans[j]).0@ != scans[at].0@,
    ensures
        scan_map(scans).dom().contains(scans[at].0@),
        scan_map(scans)[scans[at].0@] == scans[at].1,
    decreases scans.len(),
{
    if at < scans.len() - 1 {
        assert(scans[scans.len() - 1].0@ != scans[at].0@);
        assert forall|j: int| at < j < scans.drop_last().len() implies (#[trigger] scans.drop_last()[j]).0@
            != scans.drop_last()[at].0@ by {
            assert(scans.drop_last()[j] == scans[j]);
        }
        lemma_scan_map_hit(scans.drop_last(), at);
    }
}

impl View for ScanState {
    type V = Map<Seq<char>, i64>;

    open spec fn view(&self) -> Map<Seq<char>, i64> {
        scan_map(self.scans@)
    }
}

impl ScanState {
    /// The state before any scan.
    pub fn new() -> (state: ScanState)
        ensures
            state@ == Map::<Seq<char>, i64>::empty(),
    {
        ScanState { scans: Vec::new() }
    }

    /// Finds the entry that counts for a repository: the last one.
    fn find(&self, repo: &str) -> (at: Option<usize>)
        ensures
            match at {
                Some(i) => i < self.scans.len() && self.scans[i as int].0@ == repo@ && forall|
                    j: int,
                |
                    i < j < self.scans.len() ==> (#[trigger] self.scans[j]).0@ != repo@,
                None => forall|j: int|
                    0 <= j < self.scans.len() ==> (#[trigger] self.scans[j]).0@ != repo@,
            },
    {
        let mut i: usize = self.scans.len();
        while i > 0
            invariant
                i <= self.scans.len(),
                forall|j: int| i <= j < self.scans.len() ==> (#[trigger] self.scans[j]).0@ != repo@,
            decreases i,
        {
            i -= 1;
            if same_text(self.scans[i].0.as_str(), repo) {
                return Some(i);
            }
        }
        None
    }

    /// When a repository was last scanned, if it ever was.
    pub fn last_scan(&self, repo: &str) -> (time: Option<i64>)
        ensures
            time == if self@.dom().contains(repo@) {
                Some(self@[repo@])
            } else {
                None
            },
    {
        match self.find(repo) {
            Some(i) => {
                proof {
                    lemma_scan_map_hit(self.scans@, i as int);
                }
                Some(self.scans[i].1)
            },
            None => {
                proof {
                    lemma_scan_map_miss(self.scans@, repo@);
                }
                None
            },
        }
    }

    /// From when on the comments of a repository are read: from its last
    /// scan, or from `now` where it was never scanned.
    pub fn since(&self, repo: &str, now: i64) -> (time: i64)
        ensures
            time == if self@.dom().contains(repo@) {
                self@[repo@]
            } else {
                now
            },
    {
        match self.last_scan(repo) {
            Some(time) => time,
            None => now,
        }
    }

    /// Notes that a repository was scanned at `now`. What is known of the
    /// other repositories stays.
    pub fn record(&mut self, repo: &str, now: i64)
        ensures
            final(self)@ == old(self)@.insert(repo@, now),
    {
        match self.find(repo) {
            Some(i) => {
                let entry = (repo.to_owned(), now);
                proof {
                    lemma_scan_map_update(self.scans@, i as int, entry);
                }
                self.scans.set(i, entry);
            },
            None => {
                let ghost before = self.scans@;
                let entry = (repo.to_owned(), now);
                self.scans.push(entry);
                assert(self.scans@.drop_last() == before);
            },
        }
    }
}

/// How far the scan of one repository has come.
pub enum ScanPhase {
    /// The open pull requests have been asked for.
    Listing,
    /// The comments of the current pull request have been asked for.
    Commenting,
    /// The reaction to the current comment is being set.
    Reacting,
    /// The summary of the current pull request is being made.
    Summarizing,
    /// The summary is being posted.
    Posting,
    /// The scan is over.
    Done,
}

/// The scan of one repository: from when on comments are read, the open
/// pull requests and which of them is being visited, the comments of that
/// pull request that ask for a summary and which of them is being answered.
pub struct RepoScan {
    pub since: i64,
    pub pulls: Vec<u64>,
    pub pull_at: usize,
    pub requests: Vec<u64>,
    pub request_at: usize,
    pub phase: ScanPhase,
}

/// What came back from the outside during a scan.
pub enum ScanEvent {
    /// The numbers of the open pull requests.
    Pulls(Vec<u64>),
    /// The comments of the current pull request.
    Comments(Vec<Comment>),
    /// The reaction was set.
    Reacted,
    /// The summary, or none where it could not be made.
    Summary(Option<String>),
    /// The summary was posted.
    Posted,
    /// A call failed.
    Failed,
}

/// What a scan does next.
pub enum ScanStep {
    /// List the open pull requests of the repository.
    ListPulls { owner: String, repo: String },
    /// List the comments of a pull request written since a time.
    ListComments { pull: u64, since: i64 },
    /// Set a thumbs-up on a comment.
    React { comment: u64 },
    /// Make the summary of a pull request.
    Summarize { pull: u64 },
    /// Post a comment on a pull request.
    Post { pull: u64, body: String },
    /// Nothing more: the scan of this repository is over.
    Finished,
}

/// Whether `next` and `step` go on to pull request `k`: its comments are
/// asked for, or the scan is over where there is none left.
pub open spec fn visits_pull(since: i64, pulls: Seq<u64>, k: int, next: RepoScan, step: ScanStep) -> bool {
    if 0 <= k < pulls.len() {
        &&& next.since == since
        &&& next.pulls@ == pulls
        &&& next.pull_at == k
        &&& next.requests@.len() == 0
        &&& next.request_at == 0
        &&& next.phase is Commenting
        &&& step matches ScanStep::ListComments { pull, since: from }
        &&& pull == pulls[k]
        &&& from == since
    } else {
        next.phase is Done && step is Finished
    }
}

/// Whether `next` and `step` go on to request `r` of the current pull
/// request: the comment gets its reaction, or the next pull request is
/// visited where no request is left.
pub open spec fn visits_request(
    since: i64,
    pulls: Seq<u64>,
    pull_at: int,
    requests: Seq<u64>,
    r: int,
    next: RepoScan,
    step: ScanStep,
) -> bool {
    if 0 <= r < requests.len() {
        &&& next.since == since
        &&& next.pulls@ == pulls
        &&& next.pull_at == pull_at
        &&& next.requests@ == requests
        &&& next.request_at == r
        &&& next.phase is Reacting
        &&& step matches ScanStep::React { comment }
        &&& comment == requests[r]
    } else {
        visits_pull(since, pulls, pull_at + 1, next, step)
    }
}

/// Whether a scan is at a request of a pull request.
pub open spec fn at_request(scan: RepoScan) -> bool {
    scan.pull_at < scan.pulls@.len() && scan.request_at < scan.requests@.len()
}

/// Whether `next` keeps everything of `scan` but the phase.
pub open spec fn stays(scan: RepoScan, next: RepoScan) -> bool {
    &&& next.since == scan.since
    &&& next.pulls@ == scan.pulls@
    &&& next.pull_at == scan.pull_at
    &&& next.requests@ == scan.requests@
    &&& next.request_at == scan.request_at
}

/// Whether `next` and `step` are what follows from `scan` on `event`. The
/// pull requests are visited in the order given; in each, the comments
/// that ask for a summary are answered newest first: a reaction, the
/// summary, the post. A summary that cannot be made is passed over; any
/// other failure ends the scan of the repository.
pub open spec fn scan_step(scan: RepoScan, event: ScanEvent, next: RepoScan, step: ScanStep) -> bool {
    match (scan.phase, event) {
        (ScanPhase::Listing, ScanEvent::Pulls(pulls)) => visits_pull(
            scan.since,
            pulls@,
            0,
            next,
            step,
        ),
        (ScanPhase::Commenting, ScanEvent::Comments(comments)) => if scan.pull_at
            < scan.pulls@.len() {
            visits_request(
                scan.since,
                scan.pulls@,
                scan.pull_at as int,
                requests_in(comments@, newest_first(times_of(comments@), comments@.len() as int)),
                0,
                next,
                step,
            )
        } else {
            next.phase is Done && step is Finished
        },
        (ScanPhase::Reacting, ScanEvent::Reacted) => if at_request(scan) {
            &&& stays(scan, next)
            &&& next.phase is Summarizing
            &&& step matches ScanStep::Summarize { pull }
            &&& pull == scan.pulls@[scan.pull_at as int]
        } else {
            next.phase is Done && step is Finished
        },
        (ScanPhase::Summarizing, ScanEvent::Summary(Some(summary))) => if at_request(scan) {
            &&& stays(scan, next)
            &&& next.phase is Posting
            &&& step matches ScanStep::Post { pull, body }
            &&& pull == scan.pulls@[scan.pull_at as int]
            &&& body@ == summary_heading() + summary@
        } else {
            next.phase is Done && step is Finished
        },
        (ScanPhase::Summarizing, ScanEvent::Summary(None)) => if at_request(scan) {
            visits_request(
                scan.since,
                scan.pulls@,
                scan.pull_at as int,
                scan.requests@,
                scan.request_at + 1,
                next,
                step,
            )
        } else {
            next.phase is Done && step is Finished
        },
        (ScanPhase::Posting, ScanEvent::Posted) => if at_request(scan) {
            visits_request(
                scan.since,
                scan.pulls@,
                scan.pull_at as int,
                scan.requests@,
                scan.request_at + 1,
                next,
                step,
            )
        } else {
            next.phase is Done && step is Finished
        },
        _ => next.phase is Done && step is Finished,
    }
}

/// A scan that is over.
fn finished(since: i64) -> (r: (RepoScan, ScanStep))
    ensures
        r.0.phase is Done,
        r.1 is Finished,
{
    (
        RepoScan {
            since,
            pulls: Vec::new(),
            pull_at: 0,
            requests: Vec::new(),
            request_at: 0,
            phase: ScanPhase::Done,
        },
        ScanStep::Finished,
    )
}

/// Goes on to pull request `k`.
fn visit_pull(since: i64, pulls: Vec<u64>, k: usize) -> (r: (RepoScan, ScanStep))
    ensures
        visits_pull(since, pulls@, k as int, r.0, r.1),
{
    if k < pulls.len() {
        let pull = pulls[k];
        (
            RepoScan {
                since,
                pulls,
                pull_at: k,
                requests: Vec::new(),
                request_at: 0,
                phase: ScanPhase::Commenting,
            },
            ScanStep::ListComments { pull, since },
        )
    } else {
        finished(since)
    }
}

/// Goes on to request `r` of the current pull request.
fn visit_request(since: i64, pulls: Vec<u64>, pull_at: usize, requests: Vec<u64>, r: usize) -> (out: (
    RepoScan,
    ScanStep,
))
    requires
        pull_at < pulls.len(),
    ensures
        visits_request(since, pulls@, pull_at as int, requests@, r as int, out.0, out.1),
{
    if r < requests.len() {
        let comment = requests[r];
        (
            RepoScan { since, pulls, pull_at, requests, request_at: r, phase: ScanPhase::Reacting },
            ScanStep::React { comment },
        )
    } else {
        visit_pull(since, pulls, pull_at + 1)
    }
}

impl GithubComment {
    /// Begins the scan of a repository whose owner and name have been read:
    /// its open pull requests are asked for, and comments are read from its
    /// last scan on, or from `now` where it was never scanned. A
    /// repository without a name is not scanned.
    pub fn begin_scan(
        names: Result<(String, String), RepoUrlError>,
        scans: &ScanState,
        now: i64,
    ) -> (r: (RepoScan, ScanStep))
        ensures
            match names {
                Ok(names) => {
                    &&& r.0.phase is Listing
                    &&& r.0.since == if scans@.dom().contains(names.1@) {
                        scans@[names.1@]
                    } else {
                        now
                    }
                    &&& r.1 matches ScanStep::ListPulls { owner, repo }
                    &&& owner@ == names.0@
                    &&& repo@ == names.1@
                },
                Err(_) => r.0.phase is Done && r.1 is Finished,
            },
    {
        match names {
            Ok(names) => {
                let since = scans.since(names.1.as_str(), now);
                (
                    RepoScan {
                        since,
                        pulls: Vec::new(),
                        pull_at: 0,
                        requests: Vec::new(),
                        request_at: 0,
                        phase: ScanPhase::Listing,
                    },
                    ScanStep::ListPulls { owner: names.0, repo: names.1 },
                )
            },
            Err(_) => finished(now),
        }
    }

    /// Begins the scan of the repository at `url`.
    pub fn start(url: &str, scans: &ScanState, now: i64) -> (r: (RepoScan, ScanStep))
        ensures
            match url_path_segments(url@) {
                Some(Some(segments)) => if segments.len() >= 2 {
                    &&& r.0.phase is Listing
                    &&& r.0.since == if scans@.dom().contains(segments[1]) {
                        scans@[segments[1]]
                    } else {
                        now
                    }
                    &&& r.1 matches ScanStep::ListPulls { owner, repo }
                    &&& owner@ == segments[0]
                    &&& repo@ == segments[1]
                } else {
                    r.0.phase is Done && r.1 is Finished
                },
                _ => r.0.phase is Done && r.1 is Finished,
            },
    {
        Self::begin_scan(Self::parse_github_repo(url), scans, now)
    }

    /// Takes what came back from the outside and decides what the scan does
    /// next.
    pub fn advance(scan: RepoScan, event: ScanEvent) -> (r: (RepoScan, ScanStep))
        ensures
            scan_step(scan, event, r.0, r.1),
    {
        let RepoScan { since, pulls, pull_at, requests, request_at, phase } = scan;
        let at_pull = pull_at < pulls.len();
        let at_request = at_pull && request_at < requests.len();
        match (phase, event) {
            (ScanPhase::Listing, ScanEvent::Pulls(list)) => visit_pull(since, list, 0),
            (ScanPhase::Commenting, ScanEvent::Comments(comments)) => {
                if at_pull {
                    let asking = Self::summary_requests(&comments);
                    visit_request(since, pulls, pull_at, asking, 0)
                } else {
                    finished(since)
                }
            },
            (ScanPhase::Reacting, ScanEvent::Reacted) => {
                if at_request {
                    let pull = pulls[pull_at];
                    (
                        RepoScan {
                            since,
                            pulls,
                            pull_at,
                            requests,
                            request_at,
                            phase: ScanPhase::Summarizing,
                        },
                        ScanStep::Summarize { pull },
                    )
                } else {
                    finished(since)
                }
            },
            (ScanPhase::Summarizing, ScanEvent::Summary(Some(summary))) => {
                if at_request {
                    let pull = pulls[pull_at];
                    let body = Self::summary_comment(summary.as_str());
                    (
                        RepoScan {
                            since,
                            pulls,
                            pull_at,
                            requests,
                            request_at,
                            phase: ScanPhase::Posting,
                        },
                        ScanStep::Post { pull, body },
                    )
                } else {
                    finished(since)
                }
            },
            (ScanPhase::Summarizing, ScanEvent::Summary(None)) => {
                if at_request {
                    visit_request(since, pulls, pull_at, requests, request_at + 1)
                } else {
                    finished(since)
                }
            },
            (ScanPhase::Posting, ScanEvent::Posted) => {
                if at_request {
                    visit_request(since, pulls, pull_at, requests, request_at + 1)
                } else {
                    finished(since)
                }
            },
            _ => finished(since),
        }
    }
}

} // verus!
