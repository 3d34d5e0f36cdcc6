use crate::base::string::{debug_form, debug_string, decimal, push_decimal};
use crate::files::parse::{copy_texts, texts};
use vstd::prelude::*;

verus! {

/// The settings for summarising pull requests: the credentials, the
/// repositories to watch and how often, and the size up to which a pull
/// request is summarised.
pub struct GithubConfig {
    pub github_token: String,
    pub llm_max_tokens: usize,
    pub databend_dsn: String,
    pub repos: Option<Vec<String>>,
    pub check_in_secs: usize,
}

/// The texts of an optional list of strings.
pub open spec fn optional_texts(list: Option<Vec<String>>) -> Option<Seq<Seq<char>>> {
    match list {
        Some(items) => Some(texts(items@)),
        None => None,
    }
}

impl GithubConfig {
    /// Whether two settings say the same.
    pub open spec fn same(&self, other: &GithubConfig) -> bool {
        &&& self.github_token@ == other.github_token@
        &&& self.llm_max_tokens == other.llm_max_tokens
        &&& self.databend_dsn@ == other.databend_dsn@
        &&& optional_texts(self.repos) == optional_texts(other.repos)
        &&& self.check_in_secs == other.check_in_secs
    }
}

impl Default for GithubConfig {
    fn default() -> (conf: GithubConfig)
        ensures
            conf.github_token@.len() == 0,
            conf.llm_max_tokens == 100000,
            conf.databend_dsn@.len() == 0,
            conf.repos is None,
            conf.check_in_secs == 20,
    {
        GithubConfig {
            github_token: String::new(),
            llm_max_tokens: 100000,
            databend_dsn: String::new(),
            repos: None,
            check_in_secs: 20,
        }
    }
}

impl Clone for GithubConfig {
    fn clone(&self) -> (conf: GithubConfig)
        ensures
            conf.same(self),
    {
        GithubConfig {
            github_token: self.github_token.clone(),
            llm_max_tokens: self.llm_max_tokens,
            databend_dsn: self.databend_dsn.clone(),
            repos: match &self.repos {
                Some(repos) => Some(copy_texts(repos.as_slice())),
                None => None,
            },
            check_in_secs: self.check_in_secs,
        }
    }
}

/// A list of texts as it is written for a log: each item in its debug form,
/// a comma and a blank between each two, all between square brackets.
pub open spec fn listed_items(items: Seq<Seq<char>>) -> Seq<char>
    decreases items.len(),
{
    if items.len() == 0 {
        Seq::empty()
    } else if items.len() == 1 {
        debug_form(items[0])
    } else {
        listed_items(items.drop_last()) + ", "@ + debug_form(items.last())
    }
}

/// The repositories as they are written for a log.
pub open spec fn repos_description(repos: Option<Seq<Seq<char>>>) -> Seq<char> {
    match repos {
        Some(items) => "Some(["@ + listed_items(items) + "])"@,
        None => "None"@,
    }
}

/// The settings written out for a log, with both secrets masked.
pub open spec fn github_description(
    llm_max_tokens: nat,
    repos: Option<Seq<Seq<char>>>,
    check_in_secs: nat,
) -> Seq<char> {
    "QAConfig { github_token: "@ + debug_form("******"@) + ", databend_dsn: "@ + debug_form(
        "******"@,
    ) + ", llm_max_tokens: "@ + decimal(llm_max_tokens) + ", repos: "@ + repos_description(repos)
        + ", check_in_secs: "@ + decimal(check_in_secs) + " }"@
}

impl GithubConfig {
    /// Writes the settings out for a log. The token and the connection
    /// string are shown as six asterisks each, whatever they are.
    pub fn describe(&self) -> (text: String)
        ensures
            text@ == github_description(
                self.llm_max_tokens as nat,
                optional_texts(self.repos),
                self.check_in_secs as nat,
            ),
    {
        let mut out = String::new();
        out.append("QAConfig { github_token: ");
        out.append(debug_string("******").as_str());
        out.append(", databend_dsn: ");
        out.append(debug_string("******").as_str());
        out.append(", llm_max_tokens: ");
        push_decimal(&mut out, self.llm_max_tokens);
        out.append(", repos: ");
        match &self.repos {
            Some(repos) => {
                let mut list = String::new();
                let mut i: usize = 0;
                let ghost all = texts(repos@);
                assert(all.take(0).len() == 0);
                while i < repos.len()
                    invariant
                        i <= repos.len(),
                        all == texts(repos@),
                        list@ == listed_items(all.take(i as int)),
                    decreases repos.len() - i,
                {
                    proof {
                        assert(all.take(i + 1).drop_last() == all.take(i as int));
                        assert(all.take(i + 1).last() == repos@[i as int]@);
                        if i == 0 {
                            assert(all.take(1)[0] == repos@[0]@);
                        }
                    }
                    if i > 0 {
                        list.append(", ");
                    }
                    list.append(debug_string(repos[i].as_str()).as_str());
                    i += 1;
                }
                assert(all.take(repos.len() as int) == all);
                out.append("Some([");
                out.append(list.as_str());
                out.append("])");
            },
            None => {
                out.append("None");
            },
        }
        out.append(", check_in_secs: ");
        push_decimal(&mut out, self.check_in_secs);
        out.append(" }");
        out
    }
}

} // verus!
