//! The settings that the configuration file provides, and their defaults.

use vstd::prelude::*;

use crate::text::{chars_of, push_char, string_of, to_owned_string};

verus! {

/// Where and as whom mail is sent.
pub struct EmailConfig {
    pub smtp_host: String,
    pub smtp_port: u16,
    pub smtp_username: String,
    pub smtp_password: String,
    pub from: String,
    pub to: String,
}

/// Which kinds of GitHub events are watched for a repository, and whose
/// commits are left out of the report.
pub struct WatchConfig {
    pub commits: bool,
    pub prs: bool,
    pub releases: bool,
    /// The GitHub logins whose commits are not reported.
    pub ignore_authors: Vec<String>,
}

impl Default for WatchConfig {
    /// Nothing is watched unless the configuration says so, and no author
    /// is ignored.
    fn default() -> (w: WatchConfig)
        ensures
            !w.commits && !w.prs && !w.releases,
            w.ignore_authors@.len() == 0,
    {
        WatchConfig { commits: false, prs: false, releases: false, ignore_authors: Vec::new() }
    }
}

/// Which branches of a repository are watched for commits.
pub enum BranchesConfig {
    /// The repository's default branch.
    Default,
    /// Every branch.
    All,
    /// The named branches.
    List(Vec<String>),
}

/// A watched GitHub repository.
pub struct RepoConfig {
    pub owner: String,
    pub repo: String,
    pub watch: WatchConfig,
    pub branches: BranchesConfig,
}

/// The minutes between checks when the configuration names none.
pub fn default_check_interval() -> (r: u64)
    ensures
        r == 60,
{
    60
}

/// The least random delay, in minutes, when the configuration names none.
pub fn default_random_delay_min() -> (r: u64)
    ensures
        r == 5,
{
    5
}

/// The greatest random delay, in minutes, when the configuration names none.
pub fn default_random_delay_max() -> (r: u64)
    ensures
        r == 15,
{
    15
}

/// The branches watched when the configuration names none.
pub fn default_branches() -> (r: BranchesConfig)
    ensures
        r is Default,
{
    BranchesConfig::Default
}

/// The branch setting that a keyword names: `default` or `all`.
pub open spec fn branches_keyword(keyword: Seq<char>) -> Option<bool> {
    if keyword == seq!['d', 'e', 'f', 'a', 'u', 'l', 't'] {
        Some(false)
    } else if keyword == seq!['a', 'l', 'l'] {
        Some(true)
    } else {
        None
    }
}

impl BranchesConfig {
    /// The setting for a keyword: `default` or `all`; `None` for any other
    /// word, which the configuration refuses.
    pub fn from_keyword(keyword: &str) -> (r: Option<BranchesConfig>)
        ensures
            match r {
                Some(BranchesConfig::Default) => branches_keyword(keyword@) == Some(false),
                Some(BranchesConfig::All) => branches_keyword(keyword@) == Some(true),
                Some(BranchesConfig::List(_)) => false,
                None => branches_keyword(keyword@) is None,
            },
    {
        let k = chars_of(keyword);
        if k.len() == 7 && k[0] == 'd' && k[1] == 'e' && k[2] == 'f' && k[3] == 'a' && k[4] == 'u'
            && k[5] == 'l' && k[6] == 't' {
            assert(k@ =~= seq!['d', 'e', 'f', 'a', 'u', 'l', 't']);
            Some(BranchesConfig::Default)
        } else if k.len() == 3 && k[0] == 'a' && k[1] == 'l' && k[2] == 'l' {
            assert(k@ =~= seq!['a', 'l', 'l']);
            Some(BranchesConfig::All)
        } else {
            proof {
                if k@ == seq!['d', 'e', 'f', 'a', 'u', 'l', 't'] {
                    assert(k@[6] == 't');
                }
                if k@ == seq!['a', 'l', 'l'] {
                    assert(k@[2] == 'l');
                }
            }
            None
        }
    }
}

/// The state-file path with a leading `~/` replaced by the home directory.
pub open spec fn expanded_path(path: Seq<char>, home: Seq<char>) -> Seq<char> {
    if path.len() >= 2 && path[0] == '~' && path[1] == '/' {
        home + seq!['/'] + path.skip(2)
    } else {
        path
    }
}

/// Replaces a leading `~/` of the state-file path by the home directory.
pub fn expand_tilde(path: &str, home: &str) -> (r: String)
    ensures
        r@ == expanded_path(path@, home@),
{
    let v = chars_of(path);
    if v.len() >= 2 && v[0] == '~' && v[1] == '/' {
        let mut r = to_owned_string(home);
        push_char(&mut r, '/');
        let rest = string_of(&v, 2, v.len());
        r.append(rest.as_str());
        assert(v@.subrange(2, v@.len() as int) =~= v@.skip(2));
        r
    } else {
        to_owned_string(path)
    }
}

} // verus!
