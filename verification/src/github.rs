//! The GitHub notifier: new commits on watched branches, new pull requests
//! and new releases of the configured repositories.
//!
//! A check talks to the GitHub API several times, and what it asks next
//! depends on what came back. It is a state machine: [`GitHub::check`]
//! starts it and [`GitHubCheck::resume`] hands it each reply; both return
//! the next request to make or the outcome of the check.

use vstd::prelude::*;

use crate::config::{BranchesConfig, RepoConfig};
use crate::notifier::{Notification, notification_view, opt_notification_view};
use crate::storage::{Transaction, map_get};
use crate::text::{
    chars_of, count_char, i64_to_text, index_of, index_of_char, int_text, join, join_strings,
    lemma_index_of, nonempty_trimmed, occurs_at, occurs_in, parse_i64, parse_i64_exec, split, string_of,
    string_of_all, to_owned_string, trim, trimmed_pieces, views,
};

verus! {

// ---------------------------------------------------------------------------
// Data read from the API
// ---------------------------------------------------------------------------

/// A commit as listed by the API.
pub struct Commit {
    pub sha: String,
    /// The author's name, when the commit records one.
    pub author: Option<String>,
    /// The login of the GitHub account that the commit is attributed to,
    /// when the API links it to one.
    pub login: Option<String>,
    pub message: String,
}

/// An open pull request.
pub struct PullRequest {
    pub number: i64,
    pub title: String,
    /// The login of the user who opened it.
    pub author: String,
}

/// A published release.
pub struct Release {
    pub tag_name: String,
    pub name: String,
}

// ---------------------------------------------------------------------------
// Storage keys and request URLs
// ---------------------------------------------------------------------------

pub open spec fn owner_repo(r: RepoConfig) -> Seq<char> {
    r.owner@ + "_"@ + r.repo@
}

/// Where the default branch of a repository is cached.
pub open spec fn default_branch_key(r: RepoConfig) -> Seq<char> {
    "github_default_branch_"@ + owner_repo(r)
}

/// Where the last seen head commit of a branch is kept.
pub open spec fn commit_key(r: RepoConfig, branch: Seq<char>) -> Seq<char> {
    "github_commits_"@ + owner_repo(r) + "_"@ + branch
}

/// Where the highest pull request number seen is kept.
pub open spec fn pr_key(r: RepoConfig) -> Seq<char> {
    "github_prs_max_"@ + owner_repo(r)
}

/// Where the release tags seen are kept, separated by commas.
pub open spec fn release_key(r: RepoConfig) -> Seq<char> {
    "github_releases_seen_"@ + owner_repo(r)
}

/// The API URL of a repository.
pub open spec fn repo_url(r: RepoConfig) -> Seq<char> {
    "https://api.github.com/repos/"@ + r.owner@ + "/"@ + r.repo@
}

pub open spec fn branches_url(r: RepoConfig) -> Seq<char> {
    repo_url(r) + "/branches?per_page=100"@
}

pub open spec fn latest_commit_url(r: RepoConfig, branch: Seq<char>) -> Seq<char> {
    repo_url(r) + "/commits?sha="@ + branch + "&per_page=1"@
}

pub open spec fn compare_url(r: RepoConfig, base: Seq<char>, head: Seq<char>) -> Seq<char> {
    repo_url(r) + "/compare/"@ + base + "..."@ + head
}

/// The commits on a branch, newest first, at most 30 of them.
pub open spec fn recent_commits_url(r: RepoConfig, branch: Seq<char>) -> Seq<char> {
    repo_url(r) + "/commits?sha="@ + branch + "&per_page="@ + int_text(30)
}

pub open spec fn open_prs_url(r: RepoConfig) -> Seq<char> {
    repo_url(r) + "/pulls?state=open&per_page=100&sort=created&direction=desc"@
}

pub open spec fn releases_url(r: RepoConfig) -> Seq<char> {
    repo_url(r) + "/releases?per_page=10&sort=created&direction=desc"@
}

fn owner_repo_exec(r: &RepoConfig) -> (s: String)
    ensures
        s@ == owner_repo(*r),
{
    let mut s = r.owner.clone();
    s.append("_");
    s.append(r.repo.as_str());
    s
}

fn prefixed(prefix: &str, rest: &str) -> (s: String)
    ensures
        s@ == prefix@ + rest@,
{
    let mut s = to_owned_string(prefix);
    s.append(rest);
    s
}

fn default_branch_key_exec(r: &RepoConfig) -> (s: String)
    ensures
        s@ == default_branch_key(*r),
{
    prefixed("github_default_branch_", owner_repo_exec(r).as_str())
}

fn commit_key_exec(r: &RepoConfig, branch: &str) -> (s: String)
    ensures
        s@ == commit_key(*r, branch@),
{
    let mut s = prefixed("github_commits_", owner_repo_exec(r).as_str());
    s.append("_");
    s.append(branch);
    s
}

fn pr_key_exec(r: &RepoConfig) -> (s: String)
    ensures
        s@ == pr_key(*r),
{
    prefixed("github_prs_max_", owner_repo_exec(r).as_str())
}

fn release_key_exec(r: &RepoConfig) -> (s: String)
    ensures
        s@ == release_key(*r),
{
    prefixed("github_releases_seen_", owner_repo_exec(r).as_str())
}

fn repo_url_exec(r: &RepoConfig) -> (s: String)
    ensures
        s@ == repo_url(*r),
{
    let mut s = prefixed("https://api.github.com/repos/", r.owner.as_str());
    s.append("/");
    s.append(r.repo.as_str());
    s
}

fn branches_url_exec(r: &RepoConfig) -> (s: String)
    ensures
        s@ == branches_url(*r),
{
    let mut s = repo_url_exec(r);
    s.append("/branches?per_page=100");
    s
}

fn latest_commit_url_exec(r: &RepoConfig, branch: &str) -> (s: String)
    ensures
        s@ == latest_commit_url(*r, branch@),
{
    let mut s = repo_url_exec(r);
    s.append("/commits?sha=");
    s.append(branch);
    s.append("&per_page=1");
    s
}

fn compare_url_exec(r: &RepoConfig, base: &str, head: &str) -> (s: String)
    ensures
        s@ == compare_url(*r, base@, head@),
{
    let mut s = repo_url_exec(r);
    s.append("/compare/");
    s.append(base);
    s.append("...");
    s.append(head);
    s
}

fn recent_commits_url_exec(r: &RepoConfig, branch: &str) -> (s: String)
    ensures
        s@ == recent_commits_url(*r, branch@),
{
    let mut s = repo_url_exec(r);
    s.append("/commits?sha=");
    s.append(branch);
    s.append("&per_page=");
    s.append(i64_to_text(30).as_str());
    s
}

fn open_prs_url_exec(r: &RepoConfig) -> (s: String)
    ensures
        s@ == open_prs_url(*r),
{
    let mut s = repo_url_exec(r);
    s.append("/pulls?state=open&per_page=100&sort=created&direction=desc");
    s
}

fn releases_url_exec(r: &RepoConfig) -> (s: String)
    ensures
        s@ == releases_url(*r),
{
    let mut s = repo_url_exec(r);
    s.append("/releases?per_page=10&sort=created&direction=desc");
    s
}

// ---------------------------------------------------------------------------
// Commit lines
// ---------------------------------------------------------------------------

/// The number of bytes that UTF-8 takes for `c`.
pub open spec fn char_width(c: char) -> nat {
    let u = c as u32;
    if u < 0x80 {
        1
    } else if u < 0x800 {
        2
    } else if u < 0x10000 {
        3
    } else {
        4
    }
}

/// The number of bytes that UTF-8 takes for `s`.
pub open spec fn byte_len(s: Seq<char>) -> nat
    decreases s.len(),
{
    if s.len() == 0 {
        0
    } else {
        byte_len(s.drop_last()) + char_width(s.last())
    }
}

/// The number of leading characters of `s`, at least `k`, that take exactly
/// `n` bytes; none when byte `n` falls inside a character or past the end.
pub open spec fn chars_in_bytes(s: Seq<char>, n: nat, k: int) -> Option<int>
    decreases s.len() + 1 - k,
{
    if k < 0 || k > s.len() || byte_len(s.take(k)) > n {
        None
    } else if byte_len(s.take(k)) == n {
        Some(k)
    } else {
        chars_in_bytes(s, n, k + 1)
    }
}

/// Whether the first seven bytes of a commit hash can be cut off: it is at
/// most seven bytes long, or byte 7 starts a character.
pub open spec fn sha_cuttable(sha: Seq<char>) -> bool {
    byte_len(sha) <= 7 || chars_in_bytes(sha, 7, 0) is Some
}

/// The short form of a commit hash: its first seven bytes.
pub open spec fn short_sha(sha: Seq<char>) -> Seq<char> {
    if byte_len(sha) <= 7 {
        sha
    } else {
        match chars_in_bytes(sha, 7, 0) {
            Some(k) => sha.take(k),
            None => sha,
        }
    }
}

/// `str::lines().next()`, or the empty string: the text before the first
/// line feed, without a carriage return that ends it.
pub open spec fn first_line(m: Seq<char>) -> Seq<char> {
    match index_of(m, '\n') {
        Some(i) => {
            let l = m.take(i);
            if l.len() > 0 && l.last() == '\r' {
                l.drop_last()
            } else {
                l
            }
        },
        None => m,
    }
}

/// The line that reports one commit.
pub open spec fn commit_line(c: Commit) -> Seq<char> {
    let author = match c.author {
        Some(a) => a@,
        None => "unknown"@,
    };
    "    "@ + short_sha(c.sha@) + " - "@ + author + " - \""@ + first_line(c.message@) + "\""@
}

/// The lines that report commits, in order.
pub open spec fn commit_lines(cs: Seq<Commit>) -> Seq<Seq<char>> {
    cs.map_values(|c: Commit| commit_line(c))
}

/// What a branch with new commits contributes to the report.
pub open spec fn branch_entry(branch: Seq<char>, cs: Seq<Commit>) -> Seq<char> {
    "  "@ + branch + ":\n"@ + join(commit_lines(cs), "\n"@)
}

/// The report of new commits on the branches of a repository.
pub open spec fn commits_entry(r: RepoConfig, found: Seq<Seq<char>>) -> Seq<char> {
    "["@ + r.owner@ + "/"@ + r.repo@ + "] New commits:\n"@ + join(found, "\n"@)
}

/// The logins whose commits to a repository are left out of its report.
pub open spec fn ignored_logins(r: RepoConfig) -> Seq<Seq<char>> {
    views(r.watch.ignore_authors@)
}

/// Whether a commit is attributed to one of the ignored logins.
pub open spec fn by_ignored_author(c: Commit, ignored: Seq<Seq<char>>) -> bool {
    match c.login {
        Some(l) => ignored.contains(l@),
        None => false,
    }
}

/// The test that keeps a commit in the report.
pub open spec fn not_ignored(ignored: Seq<Seq<char>>) -> spec_fn(Commit) -> bool {
    |c: Commit| !by_ignored_author(c, ignored)
}

/// The commits that are reported: those not by an ignored author, in order.
pub open spec fn kept_commits(cs: Seq<Commit>, ignored: Seq<Seq<char>>) -> Seq<Commit> {
    cs.filter(not_ignored(ignored))
}

/// Whether every commit's hash can be shortened.
pub open spec fn commits_printable(cs: Seq<Commit>) -> bool {
    forall|i: int| 0 <= i < cs.len() ==> sha_cuttable(#[trigger] cs[i].sha@)
}

pub proof fn lemma_chars_in_bytes_range(s: Seq<char>, n: nat, k: int)
    ensures
        chars_in_bytes(s, n, k) matches Some(j) ==> 0 <= k <= j <= s.len(),
    decreases s.len() + 1 - k,
{
    if k < 0 || k > s.len() || byte_len(s.take(k)) > n {
    } else if byte_len(s.take(k)) == n {
    } else {
        lemma_chars_in_bytes_range(s, n, k + 1);
    }
}

pub proof fn lemma_byte_len_take(s: Seq<char>, k: int)
    requires
        0 <= k < s.len(),
    ensures
        byte_len(s.take(k + 1)) == byte_len(s.take(k)) + char_width(s[k]),
{
    assert(s.take(k + 1).drop_last() =~= s.take(k));
}

pub proof fn lemma_byte_len_prefix(s: Seq<char>, k: int)
    requires
        0 <= k <= s.len(),
    ensures
        byte_len(s.take(k)) <= byte_len(s),
    decreases s.len() - k,
{
    if k < s.len() {
        lemma_byte_len_take(s, k);
        lemma_byte_len_prefix(s, k + 1);
    } else {
        assert(s.take(k) =~= s);
    }
}

fn char_width_exec(c: char) -> (w: usize)
    ensures
        w == char_width(c),
{
    let u = c as u32;
    if u < 0x80 {
        1
    } else if u < 0x800 {
        2
    } else if u < 0x10000 {
        3
    } else {
        4
    }
}

/// Whether the hash can be shortened to its first seven bytes.
pub fn sha_cuttable_exec(sha: &str) -> (r: bool)
    ensures
        r == sha_cuttable(sha@),
{
    let v = chars_of(sha);
    let k = seven_bytes(&v);
    proof {
        if k.1 > 7 {
            lemma_byte_len_prefix(v@, k.0 as int);
        }
    }
    k.1 <= 7
}

/// How many leading characters of `v` fit in seven bytes, and their bytes,
/// stopping at the first prefix that reaches seven bytes.
fn seven_bytes(v: &Vec<char>) -> (r: (usize, usize))
    ensures
        r.0 <= v@.len(),
        r.1 == byte_len(v@.take(r.0 as int)),
        r.1 < 7 ==> r.0 == v@.len(),
        r.1 <= 7 ==> (byte_len(v@) <= 7 || chars_in_bytes(v@, 7, 0) == Some(r.0 as int)),
        r.1 > 7 ==> chars_in_bytes(v@, 7, 0) is None,
{
    let mut k: usize = 0;
    let mut acc: usize = 0;
    assert(v@.take(0) =~= Seq::<char>::empty());
    while k < v.len() && acc < 7
        invariant
            k <= v@.len(),
            acc == byte_len(v@.take(k as int)),
            acc < 7 + 4,
            acc < 7 ==> chars_in_bytes(v@, 7, 0) == chars_in_bytes(v@, 7, k as int),
            acc >= 7 ==> acc == 7 ==> chars_in_bytes(v@, 7, 0) == Some(k as int),
            acc > 7 ==> chars_in_bytes(v@, 7, 0) is None,
        decreases v@.len() - k,
    {
        proof {
            lemma_byte_len_take(v@, k as int);
        }
        acc = acc + char_width_exec(v[k]);
        k = k + 1;
    }
    proof {
        if acc < 7 {
            assert(v@.take(k as int) =~= v@);
        }
        if acc == 7 && k == v@.len() {
            assert(v@.take(k as int) =~= v@);
        }
    }
    (k, acc)
}

fn short_sha_exec(sha: &str) -> (s: String)
    requires
        sha_cuttable(sha@),
    ensures
        s@ == short_sha(sha@),
{
    let v = chars_of(sha);
    let (k, acc) = seven_bytes(&v);
    proof {
        if acc > 7 {
            lemma_byte_len_prefix(v@, k as int);
        }
        if acc < 7 {
            assert(v@.take(k as int) =~= v@);
        }
    }
    let s = string_of(&v, 0, k);
    assert(v@.subrange(0, k as int) =~= v@.take(k as int));
    proof {
        if byte_len(v@) <= 7 && acc == 7 && k < v@.len() {
            lemma_byte_len_take(v@, k as int);
            lemma_byte_len_prefix(v@, k + 1);
        }
        if byte_len(v@) <= 7 && acc == 7 && k == v@.len() {
            assert(v@.take(k as int) =~= v@);
        }
    }
    s
}

fn first_line_exec(m: &str) -> (s: String)
    ensures
        s@ == first_line(m@),
{
    let v = chars_of(m);
    match index_of_char(&v, '\n') {
        Some(i) => {
            proof {
                lemma_index_of(v@, '\n');
            }
            assert(v@.subrange(0, i as int) =~= v@.take(i as int));
            if i > 0 && v[i - 1] == '\r' {
                assert(v@.subrange(0, i - 1) =~= v@.take(i as int).drop_last());
                string_of(&v, 0, i - 1)
            } else {
                string_of(&v, 0, i)
            }
        },
        None => string_of_all(&v),
    }
}

fn commit_line_exec(c: &Commit) -> (s: String)
    requires
        sha_cuttable(c.sha@),
    ensures
        s@ == commit_line(*c),
{
    let mut s = to_owned_string("    ");
    s.append(short_sha_exec(c.sha.as_str()).as_str());
    s.append(" - ");
    match &c.author {
        Some(a) => s.append(a.as_str()),
        None => s.append("unknown"),
    }
    s.append(" - \"");
    s.append(first_line_exec(c.message.as_str()).as_str());
    s.append("\"");
    s
}

fn by_ignored_author_exec(c: &Commit, ignored: &Vec<String>) -> (r: bool)
    ensures
        r == by_ignored_author(*c, views(ignored@)),
{
    match &c.login {
        Some(l) => contains_string(ignored, l),
        None => false,
    }
}

/// The lines that report the commits not by an ignored author, in order.
fn kept_lines_exec(cs: &Vec<Commit>, ignored: &Vec<String>) -> (lines: Vec<String>)
    requires
        commits_printable(kept_commits(cs@, views(ignored@))),
    ensures
        views(lines@) == commit_lines(kept_commits(cs@, views(ignored@))),
{
    let ghost ig = views(ignored@);
    let ghost keep = not_ignored(ig);
    let mut lines: Vec<String> = Vec::new();
    let mut i: usize = 0;
    proof {
        reveal_with_fuel(Seq::filter, 1);
        assert(cs@.take(0) =~= Seq::<Commit>::empty());
        assert(commit_lines(kept_commits(cs@.take(0), ig)) =~= Seq::<Seq<char>>::empty());
        assert(views(lines@) =~= Seq::<Seq<char>>::empty());
    }
    while i < cs.len()
        invariant
            i <= cs@.len(),
            ig == views(ignored@),
            keep == not_ignored(ig),
            commits_printable(kept_commits(cs@, ig)),
            views(lines@) == commit_lines(kept_commits(cs@.take(i as int), ig)),
        decreases cs@.len() - i,
    {
        let c = &cs[i];
        proof {
            assert(cs@.take(i + 1) =~= cs@.take(i as int).push(cs@[i as int]));
            cs@.take(i as int).lemma_filter_push(cs@[i as int], keep);
        }
        if !by_ignored_author_exec(c, ignored) {
            proof {
                assert(keep(cs@[i as int]));
                cs@.lemma_filter_contains(keep, i as int);
                let k = kept_commits(cs@, ig);
                let j = choose|j: int| 0 <= j < k.len() && k[j] == cs@[i as int];
                assert(sha_cuttable(k[j].sha@));
            }
            let line = commit_line_exec(c);
            let ghost before = lines@;
            lines.push(line);
            assert(views(lines@) =~= views(before).push(line@));
            assert(commit_lines(kept_commits(cs@.take(i + 1), ig)) =~= commit_lines(
                kept_commits(cs@.take(i as int), ig),
            ).push(commit_line(cs@[i as int])));
        }
        i = i + 1;
    }
    assert(cs@.take(i as int) =~= cs@);
    lines
}

/// Whether the hashes of the commits not by an ignored author can all be
/// shortened.
fn kept_printable_exec(cs: &Vec<Commit>, ignored: &Vec<String>) -> (r: bool)
    ensures
        r == commits_printable(kept_commits(cs@, views(ignored@))),
{
    let ghost ig = views(ignored@);
    let ghost keep = not_ignored(ig);
    let mut i: usize = 0;
    proof {
        reveal_with_fuel(Seq::filter, 1);
        assert(cs@.take(0) =~= Seq::<Commit>::empty());
    }
    while i < cs.len()
        invariant
            i <= cs@.len(),
            ig == views(ignored@),
            keep == not_ignored(ig),
            commits_printable(kept_commits(cs@.take(i as int), ig)),
        decreases cs@.len() - i,
    {
        let c = &cs[i];
        proof {
            assert(cs@.take(i + 1) =~= cs@.take(i as int).push(cs@[i as int]));
            cs@.take(i as int).lemma_filter_push(cs@[i as int], keep);
        }
        if !by_ignored_author_exec(c, ignored) {
            if !sha_cuttable_exec(c.sha.as_str()) {
                proof {
                    assert(keep(cs@[i as int]));
                    cs@.lemma_filter_contains(keep, i as int);
                    let k = kept_commits(cs@, ig);
                    let j = choose|j: int| 0 <= j < k.len() && k[j] == cs@[i as int];
                    assert(!sha_cuttable(k[j].sha@));
                }
                return false;
            }
            proof {
                let k = kept_commits(cs@.take(i + 1), ig);
                assert forall|j: int| 0 <= j < k.len() implies sha_cuttable(#[trigger] k[j].sha@) by {
                    if j < k.len() - 1 {
                        assert(k[j] == kept_commits(cs@.take(i as int), ig)[j]);
                    }
                }
            }
        } else {
            assert(kept_commits(cs@.take(i + 1), ig) == kept_commits(cs@.take(i as int), ig));
        }
        i = i + 1;
    }
    assert(cs@.take(i as int) =~= cs@);
    true
}

/// The entry of a branch whose new commits are reported by `lines`.
fn branch_entry_exec(branch: &str, lines: &Vec<String>) -> (s: String)
    ensures
        s@ == "  "@ + branch@ + ":\n"@ + join(views(lines@), "\n"@),
{
    let mut s = prefixed("  ", branch);
    s.append(":\n");
    s.append(join_strings(lines, "\n").as_str());
    s
}

fn commits_entry_exec(r: &RepoConfig, found: &Vec<String>) -> (s: String)
    ensures
        s@ == commits_entry(*r, views(found@)),
{
    let mut s = prefixed("[", r.owner.as_str());
    s.append("/");
    s.append(r.repo.as_str());
    s.append("] New commits:\n");
    s.append(join_strings(found, "\n").as_str());
    s
}

// ---------------------------------------------------------------------------
// Pull requests
// ---------------------------------------------------------------------------

/// The highest number among the pull requests.
pub open spec fn max_number(prs: Seq<PullRequest>) -> Option<i64>
    decreases prs.len(),
{
    if prs.len() == 0 {
        None
    } else {
        let n = prs.last().number;
        match max_number(prs.drop_last()) {
            Some(m) => Some(if n > m {
                n
            } else {
                m
            }),
            None => Some(n),
        }
    }
}

/// The pull requests numbered above `seen`, in order.
pub open spec fn new_prs(prs: Seq<PullRequest>, seen: i64) -> Seq<PullRequest>
    decreases prs.len(),
{
    if prs.len() == 0 {
        Seq::empty()
    } else if prs.last().number > seen {
        new_prs(prs.drop_last(), seen).push(prs.last())
    } else {
        new_prs(prs.drop_last(), seen)
    }
}

/// The line that reports one pull request.
pub open spec fn pr_line(p: PullRequest) -> Seq<char> {
    "  PR #"@ + int_text(p.number as int) + ": \""@ + p.title@ + "\" by "@ + p.author@
}

/// The report of new pull requests.
pub open spec fn prs_entry(r: RepoConfig, new: Seq<PullRequest>) -> Seq<char> {
    "["@ + r.owner@ + "/"@ + r.repo@ + "] New PRs:\n"@ + join(
        new.map_values(|p: PullRequest| pr_line(p)),
        "\n"@,
    )
}

/// The highest pull request number recorded for the repository, if any
/// can be read.
pub open spec fn recorded_max(r: RepoConfig, tx: Map<Seq<char>, Seq<char>>) -> Option<i64> {
    match map_get(tx, pr_key(r)) {
        Some(s) => parse_i64(s),
        None => None,
    }
}

/// The state after checking the open pull requests, and the report, if
/// any: the first time only the highest number is recorded; after that
/// the pull requests numbered above the recorded one are reported and the
/// record moves up to the highest open number.
pub open spec fn pr_outcome(r: RepoConfig, tx: Map<Seq<char>, Seq<char>>, prs: Seq<PullRequest>) -> (
    Map<Seq<char>, Seq<char>>,
    Option<Seq<char>>,
) {
    match recorded_max(r, tx) {
        None => (
            match max_number(prs) {
                Some(m) => tx.insert(pr_key(r), int_text(m as int)),
                None => tx,
            },
            None,
        ),
        Some(seen) => {
            let new = new_prs(prs, seen);
            if new.len() == 0 {
                (tx, None)
            } else {
                (tx.insert(pr_key(r), int_text(max_number(prs).unwrap() as int)), Some(prs_entry(r, new)))
            }
        },
    }
}

pub proof fn lemma_new_prs_nonempty_max(prs: Seq<PullRequest>, seen: i64)
    ensures
        new_prs(prs, seen).len() > 0 ==> max_number(prs) is Some,
        new_prs(prs, seen).len() <= prs.len(),
    decreases prs.len(),
{
    if prs.len() > 0 {
        lemma_new_prs_nonempty_max(prs.drop_last(), seen);
    }
}

fn pr_line_exec(p: &PullRequest) -> (s: String)
    ensures
        s@ == pr_line(*p),
{
    let mut s = to_owned_string("  PR #");
    s.append(i64_to_text(p.number).as_str());
    s.append(": \"");
    s.append(p.title.as_str());
    s.append("\" by ");
    s.append(p.author.as_str());
    s
}

/// Checks the open pull requests of a repository against the recorded
/// highest number, and returns the report of new ones.
pub fn check_prs(repo: &RepoConfig, tx: &mut Transaction, prs: &Vec<PullRequest>) -> (r: Option<
    String,
>)
    ensures
        (final(tx)@, crate::text::opt_view(r)) == pr_outcome(*repo, old(tx)@, prs@),
{
    let key = pr_key_exec(repo);
    let stored: Option<i64> = match tx.get(key.as_str()) {
        Some(s) => parse_i64_exec(s),
        None => None,
    };
    assert(stored == recorded_max(*repo, old(tx)@));
    let mut max: Option<i64> = None;
    let mut lines: Vec<String> = Vec::new();
    let mut i: usize = 0;
    while i < prs.len()
        invariant
            i <= prs@.len(),
            max == max_number(prs@.take(i as int)),
            stored matches Some(seen) ==> views(lines@) == new_prs(prs@.take(i as int), seen).map_values(
                |p: PullRequest| pr_line(p),
            ),
        decreases prs@.len() - i,
    {
        let p = &prs[i];
        assert(prs@.take(i + 1).drop_last() =~= prs@.take(i as int));
        assert(prs@.take(i + 1).last() == prs@[i as int]);
        max = match max {
            Some(m) => Some(if p.number > m {
                p.number
            } else {
                m
            }),
            None => Some(p.number),
        };
        match stored {
            Some(seen) => {
                if p.number > seen {
                    let line = pr_line_exec(p);
                    let ghost before = lines@;
                    lines.push(line);
                    assert(views(lines@) =~= views(before).push(line@));
                    assert(new_prs(prs@.take(i + 1), seen).map_values(|p: PullRequest| pr_line(p))
                        =~= new_prs(prs@.take(i as int), seen).map_values(
                        |p: PullRequest| pr_line(p),
                    ).push(pr_line(*p)));
                }
            },
            None => {},
        }
        i = i + 1;
    }
    assert(prs@.take(i as int) =~= prs@);
    match stored {
        None => {
            match max {
                Some(m) => {
                    tx.set(key.as_str(), i64_to_text(m).as_str());
                },
                None => {},
            }
            None
        },
        Some(seen) => {
            proof {
                lemma_new_prs_nonempty_max(prs@, seen);
            }
            if lines.len() == 0 {
                return None;
            }
            match max {
                Some(m) => {
                    tx.set(key.as_str(), i64_to_text(m).as_str());
                },
                None => {},
            }
            let mut entry = prefixed("[", repo.owner.as_str());
            entry.append("/");
            entry.append(repo.repo.as_str());
            entry.append("] New PRs:\n");
            entry.append(join_strings(&lines, "\n").as_str());
            Some(entry)
        },
    }
}

// ---------------------------------------------------------------------------
// Releases
// ---------------------------------------------------------------------------

/// The release tags recorded for a repository.
pub open spec fn seen_tags(r: RepoConfig, tx: Map<Seq<char>, Seq<char>>) -> Seq<Seq<char>> {
    match map_get(tx, release_key(r)) {
        Some(s) => nonempty_trimmed(split(s, ',')),
        None => Seq::empty(),
    }
}

/// The releases whose tags are not among `seen`, in order.
pub open spec fn new_releases(rs: Seq<Release>, seen: Seq<Seq<char>>) -> Seq<Release>
    decreases rs.len(),
{
    if rs.len() == 0 {
        Seq::empty()
    } else if !seen.contains(rs.last().tag_name@) {
        new_releases(rs.drop_last(), seen).push(rs.last())
    } else {
        new_releases(rs.drop_last(), seen)
    }
}

/// The tags of releases, in order.
pub open spec fn tags(rs: Seq<Release>) -> Seq<Seq<char>> {
    rs.map_values(|r: Release| r.tag_name@)
}

/// `acc` followed by the items of `xs` that are not already there, each once.
pub open spec fn add_missing(acc: Seq<Seq<char>>, xs: Seq<Seq<char>>) -> Seq<Seq<char>>
    decreases xs.len(),
{
    if xs.len() == 0 {
        acc
    } else {
        let a = add_missing(acc, xs.drop_last());
        if a.contains(xs.last()) {
            a
        } else {
            a.push(xs.last())
        }
    }
}

/// The line that reports one release; its name is shown when it is
/// neither empty nor the tag.
pub open spec fn release_line(r: Release) -> Seq<char> {
    "  Release "@ + r.tag_name@ + if r.name@.len() == 0 || r.name@ == r.tag_name@ {
        Seq::empty()
    } else {
        " - \""@ + r.name@ + "\""@
    }
}

/// The report of new releases.
pub open spec fn releases_entry(r: RepoConfig, new: Seq<Release>) -> Seq<char> {
    "["@ + r.owner@ + "/"@ + r.repo@ + "] New releases:\n"@ + join(
        new.map_values(|x: Release| release_line(x)),
        "\n"@,
    )
}

/// The state after checking the releases, and the report, if any: the
/// first time (no tag recorded) all tags are recorded and nothing is
/// reported; after that releases with unrecorded tags are reported and
/// their tags are recorded too.
pub open spec fn release_outcome(r: RepoConfig, tx: Map<Seq<char>, Seq<char>>, rs: Seq<Release>) -> (
    Map<Seq<char>, Seq<char>>,
    Option<Seq<char>>,
) {
    let seen = seen_tags(r, tx);
    let new = new_releases(rs, seen);
    if seen.len() == 0 {
        (tx.insert(release_key(r), join(tags(rs), ","@)), None)
    } else if new.len() == 0 {
        (tx, None)
    } else {
        (
            tx.insert(
                release_key(r),
                join(add_missing(add_missing(Seq::empty(), seen), tags(new)), ","@),
            ),
            Some(releases_entry(r, new)),
        )
    }
}

fn contains_string(v: &Vec<String>, s: &String) -> (r: bool)
    ensures
        r == views(v@).contains(s@),
{
    let mut i: usize = 0;
    while i < v.len()
        invariant
            i <= v@.len(),
            forall|j: int| 0 <= j < i ==> v@[j]@ != s@,
        decreases v@.len() - i,
    {
        if v[i] == *s {
            assert(views(v@)[i as int] == s@);
            return true;
        }
        i = i + 1;
    }
    proof {
        if views(v@).contains(s@) {
            let j = choose|j: int| 0 <= j < views(v@).len() && views(v@)[j] == s@;
            assert(v@[j]@ == s@);
        }
    }
    false
}

/// Appends `s` to `acc` unless it is already there.
fn add_missing_one(acc: &mut Vec<String>, s: &String)
    ensures
        views(final(acc)@) == if views(old(acc)@).contains(s@) {
            views(old(acc)@)
        } else {
            views(old(acc)@).push(s@)
        },
{
    if !contains_string(acc, s) {
        let ghost before = acc@;
        acc.push(s.clone());
        assert(views(acc@) =~= views(before).push(s@));
    }
}

fn release_line_exec(r: &Release) -> (s: String)
    ensures
        s@ == release_line(*r),
{
    let mut s = prefixed("  Release ", r.tag_name.as_str());
    if !(r.name.as_str().is_empty() || r.name == r.tag_name) {
        s.append(" - \"");
        s.append(r.name.as_str());
        s.append("\"");
    } else {
        assert(s@ =~= s@ + Seq::<char>::empty());
    }
    s
}

/// Checks the releases of a repository against the recorded tags, and
/// returns the report of new ones.
pub fn check_releases(repo: &RepoConfig, tx: &mut Transaction, rs: &Vec<Release>) -> (r: Option<
    String,
>)
    ensures
        (final(tx)@, crate::text::opt_view(r)) == release_outcome(*repo, old(tx)@, rs@),
{
    let key = release_key_exec(repo);
    let seen: Vec<String> = match tx.get(key.as_str()) {
        Some(s) => trimmed_pieces(s, ','),
        None => Vec::new(),
    };
    assert(views(seen@) == seen_tags(*repo, old(tx)@));
    let mut all_tags: Vec<String> = Vec::new();
    let mut new_tags: Vec<String> = Vec::new();
    let mut lines: Vec<String> = Vec::new();
    let mut i: usize = 0;
    while i < rs.len()
        invariant
            i <= rs@.len(),
            views(all_tags@) == tags(rs@.take(i as int)),
            views(new_tags@) == tags(new_releases(rs@.take(i as int), views(seen@))),
            views(lines@) == new_releases(rs@.take(i as int), views(seen@)).map_values(
                |x: Release| release_line(x),
            ),
        decreases rs@.len() - i,
    {
        let x = &rs[i];
        assert(rs@.take(i + 1).drop_last() =~= rs@.take(i as int));
        assert(rs@.take(i + 1).last() == rs@[i as int]);
        let ghost before_all = all_tags@;
        all_tags.push(x.tag_name.clone());
        assert(views(all_tags@) =~= views(before_all).push(x.tag_name@));
        assert(tags(rs@.take(i + 1)) =~= tags(rs@.take(i as int)).push(x.tag_name@));
        if !contains_string(&seen, &x.tag_name) {
            let ghost before_new = new_tags@;
            let ghost before_lines = lines@;
            new_tags.push(x.tag_name.clone());
            let line = release_line_exec(x);
            lines.push(line);
            assert(views(new_tags@) =~= views(before_new).push(x.tag_name@));
            assert(views(lines@) =~= views(before_lines).push(line@));
            let ghost nr = new_releases(rs@.take(i as int), views(seen@));
            assert(tags(nr.push(*x)) =~= tags(nr).push(x.tag_name@));
            assert(nr.push(*x).map_values(|x: Release| release_line(x)) =~= nr.map_values(
                |x: Release| release_line(x),
            ).push(release_line(*x)));
        }
        i = i + 1;
    }
    assert(rs@.take(i as int) =~= rs@);
    if seen.len() == 0 {
        tx.set(key.as_str(), join_strings(&all_tags, ",").as_str());
        return None;
    }
    if lines.len() == 0 {
        return None;
    }
    let mut updated: Vec<String> = Vec::new();
    let mut j: usize = 0;
    while j < seen.len()
        invariant
            j <= seen@.len(),
            views(updated@) == add_missing(Seq::empty(), views(seen@).take(j as int)),
        decreases seen@.len() - j,
    {
        assert(views(seen@).take(j + 1).drop_last() =~= views(seen@).take(j as int));
        add_missing_one(&mut updated, &seen[j]);
        j = j + 1;
    }
    assert(views(seen@).take(j as int) =~= views(seen@));
    let mut k: usize = 0;
    while k < new_tags.len()
        invariant
            k <= new_tags@.len(),
            views(updated@) == add_missing(
                add_missing(Seq::empty(), views(seen@)),
                views(new_tags@).take(k as int),
            ),
        decreases new_tags@.len() - k,
    {
        assert(views(new_tags@).take(k + 1).drop_last() =~= views(new_tags@).take(k as int));
        add_missing_one(&mut updated, &new_tags[k]);
        k = k + 1;
    }
    assert(views(new_tags@).take(k as int) =~= views(new_tags@));
    tx.set(key.as_str(), join_strings(&updated, ",").as_str());
    let mut entry = prefixed("[", repo.owner.as_str());
    entry.append("/");
    entry.append(repo.repo.as_str());
    entry.append("] New releases:\n");
    entry.append(join_strings(&lines, "\n").as_str());
    Some(entry)
}


// ---------------------------------------------------------------------------
// Laws
// ---------------------------------------------------------------------------

pub proof fn lemma_max_number(prs: Seq<PullRequest>)
    ensures
        max_number(prs) matches Some(m) ==> (forall|i: int|
            0 <= i < prs.len() ==> (#[trigger] prs[i]).number <= m),
        prs.len() > 0 ==> max_number(prs) is Some,
    decreases prs.len(),
{
    if prs.len() > 0 {
        lemma_max_number(prs.drop_last());
        assert forall|i: int| 0 <= i < prs.len() - 1 implies prs[i] == prs.drop_last()[i] by {}
    }
}

/// The pull requests that `new_prs` keeps are exactly those numbered above
/// `seen`.
pub proof fn lemma_new_prs(prs: Seq<PullRequest>, seen: i64)
    ensures
        forall|i: int|
            0 <= i < new_prs(prs, seen).len() ==> (#[trigger] new_prs(prs, seen)[i]).number > seen
                && prs.contains(new_prs(prs, seen)[i]),
        forall|i: int|
            0 <= i < prs.len() && (#[trigger] prs[i]).number > seen ==> new_prs(prs, seen).contains(
                prs[i],
            ),
    decreases prs.len(),
{
    if prs.len() > 0 {
        let ps = prs.drop_last();
        lemma_new_prs(ps, seen);
        let n = new_prs(ps, seen);
        let all = new_prs(prs, seen);
        assert forall|i: int| 0 <= i < all.len() implies (#[trigger] all[i]).number > seen
            && prs.contains(all[i]) by {
            if i < n.len() {
                assert(all[i] == n[i]);
                let j = choose|j: int| 0 <= j < ps.len() && ps[j] == n[i];
                assert(prs[j] == ps[j]);
            } else {
                assert(all[i] == prs.last());
                assert(prs[prs.len() - 1] == prs.last());
            }
        }
        assert forall|i: int| 0 <= i < prs.len() && (#[trigger] prs[i]).number > seen implies all.contains(
            prs[i],
        ) by {
            if i < ps.len() {
                assert(ps[i] == prs[i]);
                let j = choose|j: int| 0 <= j < n.len() && n[j] == ps[i];
                if prs.last().number > seen {
                    assert(all[j] == n[j]);
                }
            } else {
                assert(all[all.len() - 1] == prs[i]);
            }
        }
    }
}

/// Law: the pull requests reported are exactly the open ones numbered above
/// the recorded highest number.
pub proof fn law_prs_reported_are_new(r: RepoConfig, tx: Map<Seq<char>, Seq<char>>, prs: Seq<PullRequest>)
    ensures
        recorded_max(r, tx) is None ==> pr_outcome(r, tx, prs).1 is None,
        recorded_max(r, tx) matches Some(seen) ==> ({
            let new = new_prs(prs, seen);
            &&& (forall|i: int| 0 <= i < new.len() ==> (#[trigger] new[i]).number > seen && prs.contains(new[i]))
            &&& (forall|i: int| 0 <= i < prs.len() && (#[trigger] prs[i]).number > seen ==> new.contains(prs[i]))
            &&& pr_outcome(r, tx, prs).1 == if new.len() == 0 {
                None
            } else {
                Some(prs_entry(r, new))
            }
        }),
{
    if let Some(seen) = recorded_max(r, tx) {
        lemma_new_prs(prs, seen);
    }
}

/// Law: a pull request is reported once. Checking the same open pull
/// requests again, right after a check, reports nothing and changes nothing.
pub proof fn law_prs_reported_once(r: RepoConfig, tx: Map<Seq<char>, Seq<char>>, prs: Seq<PullRequest>)
    ensures
        pr_outcome(r, pr_outcome(r, tx, prs).0, prs) == (pr_outcome(r, tx, prs).0, None::<Seq<char>>),
{
    let tx1 = pr_outcome(r, tx, prs).0;
    lemma_max_number(prs);
    if let Some(m) = max_number(prs) {
        crate::text::law_i64_text_round_trip(m);
        assert(recorded_max(r, tx.insert(pr_key(r), int_text(m as int))) == Some(m));
        lemma_new_prs(prs, m);
        assert(new_prs(prs, m).len() == 0) by {
            if new_prs(prs, m).len() > 0 {
                assert(new_prs(prs, m)[0].number > m);
                let j = choose|j: int| 0 <= j < prs.len() && prs[j] == new_prs(prs, m)[0];
                assert(prs[j].number <= m);
            }
        }
        if let Some(seen) = recorded_max(r, tx) {
            if new_prs(prs, seen).len() == 0 {
                assert(tx1 == tx);
            } else {
                assert(recorded_max(r, tx1) == Some(m));
            }
        }
    } else {
        assert(prs.len() == 0);
        assert(new_prs(prs, 0).len() == 0);
        if let Some(seen) = recorded_max(r, tx) {
            assert(new_prs(prs, seen).len() == 0);
        }
    }
}

/// A storable tag: nonempty, trimmed and free of commas, so that it reads
/// back from the comma-separated record.
pub open spec fn tag_storable(t: Seq<char>) -> bool {
    t.len() > 0 && trim(t) == t && !t.contains(',')
}

pub proof fn lemma_add_missing(acc: Seq<Seq<char>>, xs: Seq<Seq<char>>)
    ensures
        forall|y: Seq<char>| #[trigger]
            add_missing(acc, xs).contains(y) <==> acc.contains(y) || xs.contains(y),
        forall|i: int| 0 <= i < add_missing(acc, xs).len() ==> acc.contains(
            #[trigger] add_missing(acc, xs)[i],
        ) || xs.contains(add_missing(acc, xs)[i]),
    decreases xs.len(),
{
    if xs.len() > 0 {
        let ys = xs.drop_last();
        let x = xs.last();
        lemma_add_missing(acc, ys);
        let a = add_missing(acc, ys);
        let all = add_missing(acc, xs);
        assert(xs[xs.len() - 1] == x);
        assert forall|y: Seq<char>| #[trigger] all.contains(y) <==> acc.contains(y) || xs.contains(y) by {
            if ys.contains(y) {
                let j = choose|j: int| 0 <= j < ys.len() && ys[j] == y;
                assert(xs[j] == y);
            }
            if xs.contains(y) && !acc.contains(y) {
                let j = choose|j: int| 0 <= j < xs.len() && xs[j] == y;
                if j < ys.len() {
                    assert(ys[j] == y);
                } else {
                    assert(y == x);
                }
            }
            if !a.contains(x) {
                assert(all == a.push(x));
                if all.contains(y) {
                    let j = choose|j: int| 0 <= j < all.len() && all[j] == y;
                    if j < a.len() {
                        assert(a[j] == y);
                    }
                }
                if a.contains(y) {
                    let j = choose|j: int| 0 <= j < a.len() && a[j] == y;
                    assert(all[j] == y);
                }
                if y == x {
                    assert(all[all.len() - 1] == x);
                }
            }
        }
        assert forall|i: int| 0 <= i < all.len() implies acc.contains(#[trigger] all[i]) || xs.contains(
            all[i],
        ) by {
            assert(all.contains(all[i]));
        }
    }
}

pub proof fn lemma_tags_contains(rs: Seq<Release>, i: int)
    requires
        0 <= i < rs.len(),
    ensures
        tags(rs).contains(rs[i].tag_name@),
{
    assert(tags(rs)[i] == rs[i].tag_name@);
}

/// A release whose tag was not seen is among the new releases.
pub proof fn lemma_new_releases(rs: Seq<Release>, seen: Seq<Seq<char>>)
    ensures
        forall|i: int|
            0 <= i < rs.len() && !seen.contains(#[trigger] rs[i].tag_name@) ==> tags(
                new_releases(rs, seen),
            ).contains(rs[i].tag_name@),
        forall|i: int|
            0 <= i < new_releases(rs, seen).len() ==> tags(rs).contains(
                (#[trigger] new_releases(rs, seen)[i]).tag_name@,
            ),
    decreases rs.len(),
{
    if rs.len() > 0 {
        let ps = rs.drop_last();
        lemma_new_releases(ps, seen);
        let n = new_releases(ps, seen);
        let all = new_releases(rs, seen);
        assert forall|i: int|
            0 <= i < rs.len() && !seen.contains(#[trigger] rs[i].tag_name@) implies tags(all).contains(
            rs[i].tag_name@,
        ) by {
            if i < ps.len() {
                assert(ps[i] == rs[i]);
                let j = choose|j: int| 0 <= j < tags(n).len() && tags(n)[j] == ps[i].tag_name@;
                assert(all[j] == n[j]) by {
                    if !seen.contains(rs.last().tag_name@) {
                        assert(all == n.push(rs.last()));
                    }
                }
                assert(tags(all)[j] == tags(n)[j]);
            } else {
                assert(all == n.push(rs.last()));
                assert(tags(all)[all.len() - 1] == rs[i].tag_name@);
            }
        }
        assert forall|i: int| 0 <= i < all.len() implies tags(rs).contains(
            (#[trigger] all[i]).tag_name@,
        ) by {
            if i < n.len() {
                assert(all[i] == n[i]);
                let j = choose|j: int| 0 <= j < tags(ps).len() && tags(ps)[j] == n[i].tag_name@;
                assert(tags(rs)[j] == tags(ps)[j]);
            } else {
                assert(all[i] == rs.last());
                assert(tags(rs)[rs.len() - 1] == rs.last().tag_name@);
            }
        }
    }
}

pub proof fn lemma_no_new_releases(rs: Seq<Release>, seen: Seq<Seq<char>>)
    requires
        forall|i: int| 0 <= i < rs.len() ==> seen.contains(#[trigger] rs[i].tag_name@),
    ensures
        new_releases(rs, seen).len() == 0,
    decreases rs.len(),
{
    if rs.len() > 0 {
        assert(rs[rs.len() - 1] == rs.last());
        assert forall|i: int| 0 <= i < rs.drop_last().len() implies seen.contains(
            #[trigger] rs.drop_last()[i].tag_name@,
        ) by {
            assert(rs.drop_last()[i] == rs[i]);
        }
        lemma_no_new_releases(rs.drop_last(), seen);
    }
}

/// Law: a release is reported once. Checking the same releases again,
/// right after a check, reports nothing, when every tag is nonempty,
/// trimmed and free of commas (others do not read back from the record).
pub proof fn law_releases_reported_once(r: RepoConfig, tx: Map<Seq<char>, Seq<char>>, rs: Seq<Release>)
    requires
        forall|i: int| 0 <= i < rs.len() ==> tag_storable(#[trigger] rs[i].tag_name@),
    ensures
        release_outcome(r, release_outcome(r, tx, rs).0, rs).1 is None,
{
    let seen = seen_tags(r, tx);
    let new = new_releases(rs, seen);
    let tx1 = release_outcome(r, tx, rs).0;
    assert forall|i: int| 0 <= i < tags(rs).len() implies (#[trigger] tags(rs)[i]).len() > 0 && trim(
        tags(rs)[i],
    ) == tags(rs)[i] && !tags(rs)[i].contains(',') by {
        assert(tags(rs)[i] == rs[i].tag_name@);
    }
    if seen.len() == 0 {
        crate::text::lemma_comma_list_read_back(tags(rs));
        assert(seen_tags(r, tx1) == tags(rs));
        assert forall|i: int| 0 <= i < rs.len() implies tags(rs).contains(#[trigger] rs[i].tag_name@) by {
            lemma_tags_contains(rs, i);
        }
        lemma_no_new_releases(rs, tags(rs));
    } else if new.len() == 0 {
    } else {
        let u = add_missing(add_missing(Seq::empty(), seen), tags(new));
        lemma_add_missing(Seq::empty(), seen);
        lemma_add_missing(add_missing(Seq::empty(), seen), tags(new));
        lemma_new_releases(rs, seen);
        // the recorded tags are storable
        let stored = map_get(tx, release_key(r))->0;
        crate::text::lemma_split_pieces_lack_sep(stored, ',');
        crate::text::lemma_nonempty_trimmed_pieces(split(stored, ','), ',');
        assert forall|i: int| 0 <= i < u.len() implies (#[trigger] u[i]).len() > 0 && trim(u[i]) == u[i]
            && !u[i].contains(',') by {
            if add_missing(Seq::empty(), seen).contains(u[i]) {
                assert(!Seq::<Seq<char>>::empty().contains(u[i]));
                let j = choose|j: int| 0 <= j < seen.len() && seen[j] == u[i];
            } else {
                let j = choose|j: int| 0 <= j < tags(new).len() && tags(new)[j] == u[i];
                assert(tags(new)[j] == new[j].tag_name@);
                let k = choose|k: int| 0 <= k < tags(rs).len() && tags(rs)[k] == new[j].tag_name@;
                assert(tags(rs)[k] == rs[k].tag_name@);
            }
        }
        crate::text::lemma_comma_list_read_back(u);
        assert(seen_tags(r, tx1) == u);
        assert forall|i: int| 0 <= i < rs.len() implies u.contains(#[trigger] rs[i].tag_name@) by {
            if seen.contains(rs[i].tag_name@) {
                assert(add_missing(Seq::empty(), seen).contains(rs[i].tag_name@));
            }
        }
        assert(u.len() > 0) by {
            assert(seen[0] == seen[0]);
            assert(add_missing(Seq::empty(), seen).contains(seen[0]));
            assert(u.contains(seen[0]));
        }
        lemma_no_new_releases(rs, u);
    }
}

/// Law: the first time a branch is seen, its newest commit is recorded and
/// nothing is reported for it; a branch whose newest commit is the recorded
/// one is passed over with nothing changed.
pub proof fn law_branch_first_seen_or_unchanged(
    repos: Seq<RepoConfig>,
    token: Option<Seq<char>>,
    st: CheckView,
    tx: Map<Seq<char>, Seq<char>>,
    w: WalkView,
    latest: String,
)
    requires
        st.stage == StageView::AwaitLatest(w),
        0 <= st.repo < repos.len(),
        0 <= w.next < w.branches.len(),
    ensures
        ({
            let key = commit_key(repos[st.repo], w.branches[w.next]);
            let after = WalkView { next: w.next + 1, ..w };
            &&& !tx.contains_key(key) ==> handle(
                repos,
                token,
                st,
                tx,
                ApiReply::LatestCommit(Some(latest)),
            ) == Move::Continue(with_stage(st, StageView::NextBranch(after)), tx.insert(key, latest@))
            &&& tx.contains_key(key) && tx[key] == latest@ ==> handle(
                repos,
                token,
                st,
                tx,
                ApiReply::LatestCommit(Some(latest)),
            ) == Move::Continue(with_stage(st, StageView::NextBranch(after)), tx)
        }),
{
    let key = commit_key(repos[st.repo], w.branches[w.next]);
    assert(walk_after(w, Seq::empty()) == WalkView { next: w.next + 1, ..w });
}


/// Law: new commits on a branch are reported once. After the newest commit
/// of a branch is recorded (with or without a report), a check that finds
/// the same newest commit passes the branch over with nothing changed.
pub proof fn law_commits_reported_once(
    repos: Seq<RepoConfig>,
    token: Option<Seq<char>>,
    st: CheckView,
    tx: Map<Seq<char>, Seq<char>>,
    w: WalkView,
    latest: String,
    cs: Seq<Commit>,
)
    requires
        0 <= st.repo < repos.len(),
        0 <= w.next < w.branches.len(),
    ensures
        ({
            let recorded = record_commits(repos[st.repo], st, tx, w, latest@, cs);
            let again = with_stage(st, StageView::AwaitLatest(w));
            recorded matches Move::Continue(_, t) && handle(
                repos,
                token,
                again,
                t,
                ApiReply::LatestCommit(Some(latest)),
            ) == Move::Continue(
                with_stage(again, StageView::NextBranch(WalkView { next: w.next + 1, ..w })),
                t,
            )
        }),
{
    let t = tx.insert(commit_key(repos[st.repo], w.branches[w.next]), latest@);
    law_branch_first_seen_or_unchanged(
        repos,
        token,
        with_stage(st, StageView::AwaitLatest(w)),
        t,
        w,
        latest,
    );
}

/// Law: a branch's entry names the branch and lists every commit it is
/// given, each on a line of its own with its hash cut to seven bytes, its
/// author's name (or `unknown`) and the first line of its message.
pub proof fn law_branch_entry_lists_each_commit(branch: Seq<char>, cs: Seq<Commit>)
    ensures
        branch_entry(branch, cs).take(branch.len() + 4int) == "  "@ + branch + ":\n"@,
        forall|i: int|
            0 <= i < cs.len() ==> occurs_in(
                branch_entry(branch, cs),
                "    "@ + short_sha(cs[i].sha@) + " - "@ + (match (#[trigger] cs[i]).author {
                    Some(a) => a@,
                    None => "unknown"@,
                }) + " - \""@ + first_line(cs[i].message@) + "\""@,
            ),
{
    let head = "  "@ + branch + ":\n"@;
    let lines = commit_lines(cs);
    let j = join(lines, "\n"@);
    let e = branch_entry(branch, cs);
    reveal_strlit("  ");
    reveal_strlit(":\n");
    assert(e.take(branch.len() + 4int) =~= head);
    crate::text::lemma_join_contains_parts(lines, "\n"@);
    assert forall|i: int| 0 <= i < cs.len() implies occurs_in(e, commit_line(#[trigger] cs[i])) by {
        assert(lines[i] == commit_line(cs[i]));
        assert(occurs_in(j, lines[i]));
        let a = choose|a: int| occurs_at(j, lines[i], a);
        let b: int = head.len() + a;
        assert(e.subrange(b, b + lines[i].len()) =~= j.subrange(a, a + lines[i].len()));
        assert(occurs_at(e, lines[i], b));
    }
}

/// Law: commits by ignored authors are left out of the report. When the
/// new commits of a branch are recorded, its entry lists, in order, exactly
/// the commits not attributed to an ignored login; a branch whose new
/// commits are all by ignored authors adds no entry, though its newest
/// commit is recorded all the same.
pub proof fn law_ignored_authors_left_out(
    r: RepoConfig,
    st: CheckView,
    tx: Map<Seq<char>, Seq<char>>,
    w: WalkView,
    latest: Seq<char>,
    cs: Seq<Commit>,
)
    requires
        0 <= w.next < w.branches.len(),
    ensures
        ({
            let ignored = ignored_logins(r);
            let kept = kept_commits(cs, ignored);
            &&& forall|i: int| 0 <= i < kept.len() ==> !by_ignored_author(#[trigger] kept[i], ignored)
            &&& forall|i: int|
                0 <= i < cs.len() && !by_ignored_author(cs[i], ignored) ==> kept.contains(
                    #[trigger] cs[i],
                )
            &&& kept.len() <= cs.len()
            &&& (forall|i: int| 0 <= i < cs.len() ==> by_ignored_author(#[trigger] cs[i], ignored))
                ==> record_commits(r, st, tx, w, latest, cs) == Move::Continue(
                with_stage(st, StageView::NextBranch(WalkView { next: w.next + 1, ..w })),
                tx.insert(commit_key(r, w.branches[w.next]), latest),
            )
            &&& kept.len() > 0 ==> record_commits(r, st, tx, w, latest, cs) == Move::Continue(
                with_stage(
                    st,
                    StageView::NextBranch(
                        WalkView {
                            next: w.next + 1,
                            found: w.found.push(branch_entry(w.branches[w.next], kept)),
                            ..w
                        },
                    ),
                ),
                tx.insert(commit_key(r, w.branches[w.next]), latest),
            )
        }),
{
    let ignored = ignored_logins(r);
    let keep = not_ignored(ignored);
    let kept = kept_commits(cs, ignored);
    assert forall|i: int| 0 <= i < kept.len() implies !by_ignored_author(#[trigger] kept[i], ignored) by {
        cs.lemma_filter_pred(keep, i);
    }
    assert forall|i: int|
        0 <= i < cs.len() && !by_ignored_author(cs[i], ignored) implies kept.contains(
        #[trigger] cs[i],
    ) by {
        cs.lemma_filter_contains(keep, i);
    }
    cs.lemma_filter_len(keep);
    if forall|i: int| 0 <= i < cs.len() ==> by_ignored_author(#[trigger] cs[i], ignored) {
        assert(cs.all(|c: Commit| !keep(c)));
        cs.lemma_all_neg_filter_empty(keep);
        assert(walk_after(w, kept) == WalkView { next: w.next + 1, ..w });
    }
}

// ---------------------------------------------------------------------------
// The check as a state machine
// ---------------------------------------------------------------------------

/// The GitHub notifier: the watched repositories and the API token, if any.
pub struct GitHub {
    repos: Vec<RepoConfig>,
    token: Option<String>,
}

/// What a request asks the API for; it fixes which reply answers it.
#[derive(Clone, Copy, PartialEq, Eq, Debug)]
pub enum ApiQuery {
    Repository,
    Branches,
    LatestCommit,
    Compare,
    RecentCommits,
    OpenPullRequests,
    Releases,
}

/// A GET request to the GitHub API.
pub struct ApiRequest {
    pub query: ApiQuery,
    pub url: String,
    /// The value of the `Authorization` header, when a token is configured.
    pub authorization: Option<String>,
}

/// What the comparison of two commits gave.
pub enum CompareReply {
    /// The request or the JSON parse failed.
    Failed,
    /// The response has no `commits` field (as after a force-push).
    NoCommitList,
    /// The `commits` field, if it reads as a list of commits.
    Listed(Option<Vec<Commit>>),
}

/// The answer to an [`ApiRequest`]; `None` where the request failed or its
/// body did not read as expected.
pub enum ApiReply {
    /// The repository's `default_branch`.
    Repository(Option<String>),
    /// The `name` of each branch that has one.
    Branches(Option<Vec<String>>),
    /// The hash of the newest commit on the branch.
    LatestCommit(Option<String>),
    Compare(CompareReply),
    RecentCommits(Option<Vec<Commit>>),
    OpenPullRequests(Option<Vec<PullRequest>>),
    Releases(Option<Vec<Release>>),
}

/// What the check asks for next.
pub enum GitHubAction {
    /// Make this request and resume the check with its reply.
    Fetch(ApiRequest),
    /// The check is over; this is its report, if anything is new.
    Finished(Option<Notification>),
}

/// The walk over the watched branches of a repository.
struct BranchWalk {
    branches: Vec<String>,
    next: usize,
    found: Vec<String>,
}

/// Where a check stands within the current repository.
enum Stage {
    Start,
    AwaitRepository,
    AwaitBranches,
    NextBranch(BranchWalk),
    AwaitLatest(BranchWalk),
    AwaitCompare(BranchWalk, String),
    AwaitRecent(BranchWalk, String),
    PullRequests,
    AwaitPullRequests,
    Releases,
    AwaitReleases,
    RepoDone,
    Done,
}

/// A check in progress.
pub struct GitHubCheck<'a> {
    github: &'a GitHub,
    repo: usize,
    stage: Stage,
    entries: Vec<String>,
}

/// The view of a branch walk: the branches, the index of the next one, and
/// the reports of branches with new commits so far.
pub struct WalkView {
    pub branches: Seq<Seq<char>>,
    pub next: int,
    pub found: Seq<Seq<char>>,
}

/// The view of a [`Stage`].
pub enum StageView {
    Start,
    AwaitRepository,
    AwaitBranches,
    NextBranch(WalkView),
    AwaitLatest(WalkView),
    AwaitCompare(WalkView, Seq<char>),
    AwaitRecent(WalkView, Seq<char>),
    PullRequests,
    AwaitPullRequests,
    Releases,
    AwaitReleases,
    RepoDone,
    Done,
}

/// The view of a check: the index of the current repository, the stage
/// within it, and the reports gathered so far.
pub struct CheckView {
    pub repo: int,
    pub stage: StageView,
    pub entries: Seq<Seq<char>>,
}

/// The view of a [`GitHubAction`].
pub enum ActionView {
    Fetch(ApiQuery, Seq<char>, Option<Seq<char>>),
    Finished(Option<(Seq<char>, Seq<char>)>),
}

/// One move of the check: go on without asking anything, or stop at a
/// request or at the end.
pub enum Move {
    Continue(CheckView, Map<Seq<char>, Seq<char>>),
    Stop(CheckView, Map<Seq<char>, Seq<char>>, ActionView),
}

spec fn walk_view(w: BranchWalk) -> WalkView {
    WalkView { branches: views(w.branches@), next: w.next as int, found: views(w.found@) }
}

spec fn stage_view(s: Stage) -> StageView {
    match s {
        Stage::Start => StageView::Start,
        Stage::AwaitRepository => StageView::AwaitRepository,
        Stage::AwaitBranches => StageView::AwaitBranches,
        Stage::NextBranch(w) => StageView::NextBranch(walk_view(w)),
        Stage::AwaitLatest(w) => StageView::AwaitLatest(walk_view(w)),
        Stage::AwaitCompare(w, l) => StageView::AwaitCompare(walk_view(w), l@),
        Stage::AwaitRecent(w, l) => StageView::AwaitRecent(walk_view(w), l@),
        Stage::PullRequests => StageView::PullRequests,
        Stage::AwaitPullRequests => StageView::AwaitPullRequests,
        Stage::Releases => StageView::Releases,
        Stage::AwaitReleases => StageView::AwaitReleases,
        Stage::RepoDone => StageView::RepoDone,
        Stage::Done => StageView::Done,
    }
}

pub open spec fn request_view(r: ApiRequest) -> ActionView {
    ActionView::Fetch(r.query, r.url@, crate::text::opt_view(r.authorization))
}

pub open spec fn action_view(a: GitHubAction) -> ActionView {
    match a {
        GitHubAction::Fetch(r) => request_view(r),
        GitHubAction::Finished(n) => ActionView::Finished(opt_notification_view(n)),
    }
}

/// The `Authorization` header for a token.
pub open spec fn bearer(token: Option<Seq<char>>) -> Option<Seq<char>> {
    match token {
        Some(t) => Some("Bearer "@ + t),
        None => None,
    }
}

/// The title of the report of `n` events.
pub open spec fn report_title(n: nat) -> Seq<char> {
    "GitHub update ("@ + int_text(n as int) + " event"@ + (if n == 1 {
        ""@
    } else {
        "s"@
    }) + ")"@
}

/// The report of a check: one entry per repository and kind of event.
pub open spec fn report(entries: Seq<Seq<char>>) -> Option<(Seq<char>, Seq<char>)> {
    if entries.len() == 0 {
        None
    } else {
        Some((report_title(entries.len()), join(entries, "\n\n----\n\n"@)))
    }
}

impl GitHub {
    /// The watched repositories.
    pub closed spec fn spec_repos(&self) -> Seq<RepoConfig> {
        self.repos@
    }

    /// The API token.
    pub closed spec fn spec_token(&self) -> Option<Seq<char>> {
        crate::text::opt_view(self.token)
    }

    /// A notifier for these repositories, with an optional API token.
    pub fn new(repos: Vec<RepoConfig>, token: Option<String>) -> (g: GitHub)
        ensures
            g.spec_repos() == repos@,
            g.spec_token() == crate::text::opt_view(token),
    {
        GitHub { repos, token }
    }
}

/// The rank of a stage among those that need no request, for termination.
pub open spec fn stage_rank(s: StageView) -> int {
    match s {
        StageView::Start => 5,
        StageView::NextBranch(_) => 4,
        StageView::PullRequests => 3,
        StageView::Releases => 2,
        StageView::RepoDone => 1,
        _ => 0,
    }
}

pub open spec fn progress(repos: Seq<RepoConfig>, st: CheckView) -> int {
    (repos.len() - st.repo) * 6 + stage_rank(st.stage)
}

pub open spec fn with_stage(st: CheckView, stage: StageView) -> CheckView {
    CheckView { stage, ..st }
}

pub open spec fn fetch(
    token: Option<Seq<char>>,
    st: CheckView,
    tx: Map<Seq<char>, Seq<char>>,
    stage: StageView,
    query: ApiQuery,
    url: Seq<char>,
) -> Move {
    Move::Stop(with_stage(st, stage), tx, ActionView::Fetch(query, url, bearer(token)))
}

/// One move of the check from a stage that needs no reply.
pub open spec fn advance_step(
    repos: Seq<RepoConfig>,
    token: Option<Seq<char>>,
    st: CheckView,
    tx: Map<Seq<char>, Seq<char>>,
) -> Move {
    if st.repo < 0 || st.repo >= repos.len() {
        Move::Stop(with_stage(st, StageView::Done), tx, ActionView::Finished(report(st.entries)))
    } else {
        let r = repos[st.repo];
        match st.stage {
            StageView::Start => {
                if !r.watch.commits {
                    Move::Continue(with_stage(st, StageView::PullRequests), tx)
                } else {
                    match r.branches {
                        BranchesConfig::Default => match map_get(tx, default_branch_key(r)) {
                            Some(b) => Move::Continue(
                                with_stage(
                                    st,
                                    StageView::NextBranch(
                                        WalkView { branches: seq![b], next: 0, found: Seq::empty() },
                                    ),
                                ),
                                tx,
                            ),
                            None => fetch(
                                token,
                                st,
                                tx,
                                StageView::AwaitRepository,
                                ApiQuery::Repository,
                                repo_url(r),
                            ),
                        },
                        BranchesConfig::All => fetch(
                            token,
                            st,
                            tx,
                            StageView::AwaitBranches,
                            ApiQuery::Branches,
                            branches_url(r),
                        ),
                        BranchesConfig::List(l) => Move::Continue(
                            with_stage(
                                st,
                                StageView::NextBranch(
                                    WalkView { branches: views(l@), next: 0, found: Seq::empty() },
                                ),
                            ),
                            tx,
                        ),
                    }
                }
            },
            StageView::NextBranch(w) => {
                if 0 <= w.next < w.branches.len() {
                    fetch(
                        token,
                        st,
                        tx,
                        StageView::AwaitLatest(w),
                        ApiQuery::LatestCommit,
                        latest_commit_url(r, w.branches[w.next]),
                    )
                } else {
                    let entries = if w.found.len() > 0 {
                        st.entries.push(commits_entry(r, w.found))
                    } else {
                        st.entries
                    };
                    Move::Continue(
                        CheckView { repo: st.repo, stage: StageView::PullRequests, entries },
                        tx,
                    )
                }
            },
            StageView::PullRequests => {
                if r.watch.prs {
                    fetch(
                        token,
                        st,
                        tx,
                        StageView::AwaitPullRequests,
                        ApiQuery::OpenPullRequests,
                        open_prs_url(r),
                    )
                } else {
                    Move::Continue(with_stage(st, StageView::Releases), tx)
                }
            },
            StageView::Releases => {
                if r.watch.releases {
                    fetch(
                        token,
                        st,
                        tx,
                        StageView::AwaitReleases,
                        ApiQuery::Releases,
                        releases_url(r),
                    )
                } else {
                    Move::Continue(with_stage(st, StageView::RepoDone), tx)
                }
            },
            StageView::RepoDone => Move::Continue(
                CheckView { repo: st.repo + 1, stage: StageView::Start, entries: st.entries },
                tx,
            ),
            _ => Move::Stop(st, tx, ActionView::Finished(None)),
        }
    }
}

/// The moves of the check, from a stage that needs no reply, up to the next
/// request or the end.
pub open spec fn advance(
    repos: Seq<RepoConfig>,
    token: Option<Seq<char>>,
    st: CheckView,
    tx: Map<Seq<char>, Seq<char>>,
) -> (CheckView, Map<Seq<char>, Seq<char>>, ActionView)
    decreases progress(repos, st),
{
    match advance_step(repos, token, st, tx) {
        Move::Stop(s, t, a) => (s, t, a),
        Move::Continue(s, t) => advance(repos, token, s, t),
    }
}

/// The branch walk after a branch whose commits `cs` were fetched.
pub open spec fn walk_after(w: WalkView, cs: Seq<Commit>) -> WalkView {
    WalkView {
        branches: w.branches,
        next: w.next + 1,
        found: if cs.len() > 0 {
            w.found.push(branch_entry(w.branches[w.next], cs))
        } else {
            w.found
        },
    }
}

/// Records the newest commit of the current branch, with the commits new
/// since the one recorded before; those by ignored authors are left out.
pub open spec fn record_commits(
    r: RepoConfig,
    st: CheckView,
    tx: Map<Seq<char>, Seq<char>>,
    w: WalkView,
    latest: Seq<char>,
    cs: Seq<Commit>,
) -> Move {
    Move::Continue(
        with_stage(st, StageView::NextBranch(walk_after(w, kept_commits(cs, ignored_logins(r))))),
        tx.insert(commit_key(r, w.branches[w.next]), latest),
    )
}

pub open spec fn commits_or_none(cs: Option<Vec<Commit>>) -> Seq<Commit> {
    match cs {
        Some(v) => v@,
        None => Seq::empty(),
    }
}

/// Whether `reply` answers what the check waits for, with commit hashes
/// that can be shortened where the commits are reported (those not by the
/// `ignored` logins).
pub open spec fn reply_fits(stage: StageView, reply: ApiReply, ignored: Seq<Seq<char>>) -> bool {
    match (stage, reply) {
        (StageView::AwaitRepository, ApiReply::Repository(_)) => true,
        (StageView::AwaitBranches, ApiReply::Branches(_)) => true,
        (StageView::AwaitLatest(_), ApiReply::LatestCommit(_)) => true,
        (StageView::AwaitCompare(_, _), ApiReply::Compare(c)) => match c {
            CompareReply::Listed(Some(cs)) => commits_printable(kept_commits(cs@, ignored)),
            _ => true,
        },
        (StageView::AwaitRecent(_, _), ApiReply::RecentCommits(c)) => match c {
            Some(cs) => commits_printable(kept_commits(cs@, ignored)),
            None => true,
        },
        (StageView::AwaitPullRequests, ApiReply::OpenPullRequests(_)) => true,
        (StageView::AwaitReleases, ApiReply::Releases(_)) => true,
        _ => false,
    }
}

/// What a reply does to the check.
pub open spec fn handle(
    repos: Seq<RepoConfig>,
    token: Option<Seq<char>>,
    st: CheckView,
    tx: Map<Seq<char>, Seq<char>>,
    reply: ApiReply,
) -> Move {
    let r = repos[st.repo];
    match (st.stage, reply) {
        (StageView::AwaitRepository, ApiReply::Repository(b)) => {
            let branch = match b {
                Some(b) => b@,
                None => "main"@,
            };
            Move::Continue(
                with_stage(
                    st,
                    StageView::NextBranch(
                        WalkView { branches: seq![branch], next: 0, found: Seq::empty() },
                    ),
                ),
                tx.insert(default_branch_key(r), branch),
            )
        },
        (StageView::AwaitBranches, ApiReply::Branches(l)) => {
            let branches = match l {
                Some(v) => views(v@),
                None => Seq::empty(),
            };
            Move::Continue(
                with_stage(
                    st,
                    StageView::NextBranch(WalkView { branches, next: 0, found: Seq::empty() }),
                ),
                tx,
            )
        },
        (StageView::AwaitLatest(w), ApiReply::LatestCommit(latest)) => match latest {
            None => Move::Continue(with_stage(st, StageView::PullRequests), tx),
            Some(latest) => {
                let key = commit_key(r, w.branches[w.next]);
                match map_get(tx, key) {
                    Some(old) => {
                        if old == latest@ {
                            Move::Continue(
                                with_stage(
                                    st,
                                    StageView::NextBranch(
                                        WalkView { next: w.next + 1, ..w },
                                    ),
                                ),
                                tx,
                            )
                        } else {
                            fetch(
                                token,
                                st,
                                tx,
                                StageView::AwaitCompare(w, latest@),
                                ApiQuery::Compare,
                                compare_url(r, old, latest@),
                            )
                        }
                    },
                    None => record_commits(r, st, tx, w, latest@, Seq::empty()),
                }
            },
        },
        (StageView::AwaitCompare(w, latest), ApiReply::Compare(c)) => match c {
            CompareReply::Failed => record_commits(r, st, tx, w, latest, Seq::empty()),
            CompareReply::Listed(cs) => record_commits(r, st, tx, w, latest, commits_or_none(cs)),
            CompareReply::NoCommitList => fetch(
                token,
                st,
                tx,
                StageView::AwaitRecent(w, latest),
                ApiQuery::RecentCommits,
                recent_commits_url(r, w.branches[w.next]),
            ),
        },
        (StageView::AwaitRecent(w, latest), ApiReply::RecentCommits(cs)) => record_commits(
            r,
            st,
            tx,
            w,
            latest,
            commits_or_none(cs),
        ),
        (StageView::AwaitPullRequests, ApiReply::OpenPullRequests(prs)) => match prs {
            None => Move::Continue(with_stage(st, StageView::Releases), tx),
            Some(prs) => {
                let (t, e) = pr_outcome(r, tx, prs@);
                Move::Continue(
                    CheckView {
                        repo: st.repo,
                        stage: StageView::Releases,
                        entries: match e {
                            Some(e) => st.entries.push(e),
                            None => st.entries,
                        },
                    },
                    t,
                )
            },
        },
        (StageView::AwaitReleases, ApiReply::Releases(rs)) => match rs {
            None => Move::Continue(with_stage(st, StageView::RepoDone), tx),
            Some(rs) => {
                let (t, e) = release_outcome(r, tx, rs@);
                Move::Continue(
                    CheckView {
                        repo: st.repo,
                        stage: StageView::RepoDone,
                        entries: match e {
                            Some(e) => st.entries.push(e),
                            None => st.entries,
                        },
                    },
                    t,
                )
            },
        },
        _ => Move::Stop(st, tx, ActionView::Finished(None)),
    }
}

/// A reply followed by the moves that need no reply.
pub open spec fn resume_spec(
    repos: Seq<RepoConfig>,
    token: Option<Seq<char>>,
    st: CheckView,
    tx: Map<Seq<char>, Seq<char>>,
    reply: ApiReply,
) -> (CheckView, Map<Seq<char>, Seq<char>>, ActionView) {
    match handle(repos, token, st, tx, reply) {
        Move::Stop(s, t, a) => (s, t, a),
        Move::Continue(s, t) => advance(repos, token, s, t),
    }
}

/// The start of a check, up to its first request or its end.
pub open spec fn start_spec(
    repos: Seq<RepoConfig>,
    token: Option<Seq<char>>,
    tx: Map<Seq<char>, Seq<char>>,
) -> (CheckView, Map<Seq<char>, Seq<char>>, ActionView) {
    advance(repos, token, CheckView { repo: 0, stage: StageView::Start, entries: Seq::empty() }, tx)
}

/// Law: when the walk over a repository's branches ends, every branch
/// that had new commits to report is in the report. If any branch had, one
/// entry is added: the repository's header followed by all the branch
/// entries, in order, one per line, so each of them occurs in it; if none
/// had, the report is unchanged. The state is not touched, and the check
/// goes on to the pull requests.
pub proof fn law_commit_walk_reports_every_branch(
    repos: Seq<RepoConfig>,
    token: Option<Seq<char>>,
    st: CheckView,
    tx: Map<Seq<char>, Seq<char>>,
    w: WalkView,
)
    requires
        0 <= st.repo < repos.len(),
        st.stage == StageView::NextBranch(w),
        !(0 <= w.next < w.branches.len()),
    ensures
        ({
            let r = repos[st.repo];
            let m = advance_step(repos, token, st, tx);
            let s = m->Continue_0;
            &&& m is Continue
            &&& m->Continue_1 == tx
            &&& s.repo == st.repo
            &&& s.stage == StageView::PullRequests
            &&& w.found.len() == 0 ==> s.entries == st.entries
            &&& w.found.len() > 0 ==> {
                &&& s.entries.len() == st.entries.len() + 1
                &&& s.entries.take(st.entries.len() as int) == st.entries
                &&& s.entries.last() == "["@ + r.owner@ + "/"@ + r.repo@ + "] New commits:\n"@ + join(
                    w.found,
                    "\n"@,
                )
                &&& forall|i: int|
                    0 <= i < w.found.len() ==> occurs_in(s.entries.last(), #[trigger] w.found[i])
            }
        }),
{
    let r = repos[st.repo];
    if w.found.len() > 0 {
        let head = "["@ + r.owner@ + "/"@ + r.repo@ + "] New commits:\n"@;
        let j = join(w.found, "\n"@);
        let e = head + j;
        let entries = st.entries.push(e);
        assert(entries.take(st.entries.len() as int) =~= st.entries);
        crate::text::lemma_join_contains_parts(w.found, "\n"@);
        assert forall|i: int| 0 <= i < w.found.len() implies occurs_in(e, #[trigger] w.found[i]) by {
            assert(occurs_in(j, w.found[i]));
            let a = choose|a: int| occurs_at(j, w.found[i], a);
            let b: int = head.len() + a;
            assert(e.subrange(b, b + w.found[i].len()) =~= j.subrange(a, a + w.found[i].len()));
            assert(occurs_at(e, w.found[i], b));
        }
    }
}

// ---------------------------------------------------------------------------
// The machine, executed
// ---------------------------------------------------------------------------

/// Whether a stage is consistent with the number of repositories.
spec fn state_ok(n: int, repo: int, stage: Stage) -> bool {
    &&& 0 <= repo <= n
    &&& match stage {
        Stage::Start | Stage::Done => true,
        Stage::NextBranch(w) => repo < n && w.next <= w.branches@.len(),
        Stage::AwaitLatest(w) | Stage::AwaitCompare(w, _) | Stage::AwaitRecent(w, _) => repo < n
            && w.next < w.branches@.len(),
        _ => repo < n,
    }
}

spec fn check_view(repo: usize, stage: Stage, entries: Vec<String>) -> CheckView {
    CheckView { repo: repo as int, stage: stage_view(stage), entries: views(entries@) }
}

/// A move, executed.
enum ExecMove {
    Continue(usize, Stage, Vec<String>),
    Stop(usize, Stage, Vec<String>, GitHubAction),
}

spec fn exec_move_view(m: ExecMove, tx: Map<Seq<char>, Seq<char>>) -> Move {
    match m {
        ExecMove::Continue(r, s, e) => Move::Continue(check_view(r, s, e), tx),
        ExecMove::Stop(r, s, e, a) => Move::Stop(check_view(r, s, e), tx, action_view(a)),
    }
}

spec fn exec_move_ok(n: int, m: ExecMove) -> bool {
    match m {
        ExecMove::Continue(r, s, _) => state_ok(n, r as int, s),
        ExecMove::Stop(r, s, _, _) => state_ok(n, r as int, s),
    }
}

fn clone_strings(v: &Vec<String>) -> (r: Vec<String>)
    ensures
        views(r@) == views(v@),
{
    let mut r: Vec<String> = Vec::new();
    let mut i: usize = 0;
    while i < v.len()
        invariant
            i <= v@.len(),
            views(r@) == views(v@.take(i as int)),
        decreases v@.len() - i,
    {
        let ghost before = r@;
        r.push(v[i].clone());
        assert(views(r@) =~= views(before).push(v@[i as int]@));
        assert(views(v@.take(i + 1)) =~= views(v@.take(i as int)).push(v@[i as int]@));
        i = i + 1;
    }
    assert(v@.take(i as int) =~= v@);
    r
}

fn single(s: String) -> (r: Vec<String>)
    ensures
        views(r@) == seq![s@],
{
    let mut r: Vec<String> = Vec::new();
    r.push(s);
    assert(views(r@) =~= seq![s@]);
    r
}

impl GitHub {
    fn request(&self, query: ApiQuery, url: String) -> (r: ApiRequest)
        ensures
            request_view(r) == ActionView::Fetch(query, url@, bearer(self.spec_token())),
    {
        let authorization = match &self.token {
            Some(t) => Some(prefixed("Bearer ", t.as_str())),
            None => None,
        };
        ApiRequest { query, url, authorization }
    }
}

fn report_exec(entries: &Vec<String>) -> (r: Option<Notification>)
    ensures
        opt_notification_view(r) == report(views(entries@)),
{
    if entries.len() == 0 {
        return None;
    }
    let n = entries.len();
    let mut title = to_owned_string("GitHub update (");
    crate::text::push_decimal(&mut title, n as u64);
    title.append(" event");
    if n == 1 {
        title.append("");
    } else {
        title.append("s");
    }
    title.append(")");
    let body = join_strings(entries, "\n\n----\n\n");
    Some(Notification { title, body })
}

/// One move from a stage that needs no reply.
fn step_exec(
    gh: &GitHub,
    repo: usize,
    stage: Stage,
    entries: Vec<String>,
    tx: &Transaction,
) -> (m: ExecMove)
    requires
        state_ok(gh.repos@.len() as int, repo as int, stage),
    ensures
        exec_move_view(m, tx@) == advance_step(
            gh.spec_repos(),
            gh.spec_token(),
            check_view(repo, stage, entries),
            tx@,
        ),
        exec_move_ok(gh.repos@.len() as int, m),
{
    if repo >= gh.repos.len() {
        let n = report_exec(&entries);
        return ExecMove::Stop(repo, Stage::Done, entries, GitHubAction::Finished(n));
    }
    let r = &gh.repos[repo];
    match stage {
        Stage::Start => {
            if !r.watch.commits {
                return ExecMove::Continue(repo, Stage::PullRequests, entries);
            }
            match &r.branches {
                BranchesConfig::Default => {
                    let key = default_branch_key_exec(r);
                    match tx.get(key.as_str()) {
                        Some(b) => {
                            let walk = BranchWalk {
                                branches: single(to_owned_string(b)),
                                next: 0,
                                found: Vec::new(),
                            };
                            assert(views(walk.found@) =~= Seq::<Seq<char>>::empty());
                            ExecMove::Continue(repo, Stage::NextBranch(walk), entries)
                        },
                        None => {
                            let req = gh.request(ApiQuery::Repository, repo_url_exec(r));
                            ExecMove::Stop(
                                repo,
                                Stage::AwaitRepository,
                                entries,
                                GitHubAction::Fetch(req),
                            )
                        },
                    }
                },
                BranchesConfig::All => {
                    let req = gh.request(ApiQuery::Branches, branches_url_exec(r));
                    ExecMove::Stop(repo, Stage::AwaitBranches, entries, GitHubAction::Fetch(req))
                },
                BranchesConfig::List(l) => {
                    let walk = BranchWalk { branches: clone_strings(l), next: 0, found: Vec::new() };
                    assert(views(walk.found@) =~= Seq::<Seq<char>>::empty());
                    ExecMove::Continue(repo, Stage::NextBranch(walk), entries)
                },
            }
        },
        Stage::NextBranch(w) => {
            if w.next < w.branches.len() {
                let url = latest_commit_url_exec(r, w.branches[w.next].as_str());
                let req = gh.request(ApiQuery::LatestCommit, url);
                ExecMove::Stop(repo, Stage::AwaitLatest(w), entries, GitHubAction::Fetch(req))
            } else {
                let mut entries = entries;
                if w.found.len() > 0 {
                    let e = commits_entry_exec(r, &w.found);
                    let ghost before = entries@;
                    entries.push(e);
                    assert(views(entries@) =~= views(before).push(e@));
                }
                ExecMove::Continue(repo, Stage::PullRequests, entries)
            }
        },
        Stage::PullRequests => {
            if r.watch.prs {
                let req = gh.request(ApiQuery::OpenPullRequests, open_prs_url_exec(r));
                ExecMove::Stop(repo, Stage::AwaitPullRequests, entries, GitHubAction::Fetch(req))
            } else {
                ExecMove::Continue(repo, Stage::Releases, entries)
            }
        },
        Stage::Releases => {
            if r.watch.releases {
                let req = gh.request(ApiQuery::Releases, releases_url_exec(r));
                ExecMove::Stop(repo, Stage::AwaitReleases, entries, GitHubAction::Fetch(req))
            } else {
                ExecMove::Continue(repo, Stage::RepoDone, entries)
            }
        },
        Stage::RepoDone => ExecMove::Continue(repo + 1, Stage::Start, entries),
        other => ExecMove::Stop(repo, other, entries, GitHubAction::Finished(None)),
    }
}

/// The moves that need no reply, up to the next request or the end.
fn advance_exec(
    gh: &GitHub,
    repo: usize,
    stage: Stage,
    entries: Vec<String>,
    tx: &Transaction,
) -> (r: (usize, Stage, Vec<String>, GitHubAction))
    requires
        state_ok(gh.repos@.len() as int, repo as int, stage),
    ensures
        (check_view(r.0, r.1, r.2), tx@, action_view(r.3)) == advance(
            gh.spec_repos(),
            gh.spec_token(),
            check_view(repo, stage, entries),
            tx@,
        ),
        state_ok(gh.repos@.len() as int, r.0 as int, r.1),
{
    let ghost target = advance(
        gh.spec_repos(),
        gh.spec_token(),
        check_view(repo, stage, entries),
        tx@,
    );
    let mut cur_repo = repo;
    let mut cur_stage = stage;
    let mut cur_entries = entries;
    loop
        invariant
            state_ok(gh.repos@.len() as int, cur_repo as int, cur_stage),
            advance(
                gh.spec_repos(),
                gh.spec_token(),
                check_view(cur_repo, cur_stage, cur_entries),
                tx@,
            ) == target,
            target == advance(
                gh.spec_repos(),
                gh.spec_token(),
                check_view(repo, stage, entries),
                tx@,
            ),
        decreases progress(gh.spec_repos(), check_view(cur_repo, cur_stage, cur_entries)),
    {
        let ghost cur = check_view(cur_repo, cur_stage, cur_entries);
        match step_exec(gh, cur_repo, cur_stage, cur_entries, tx) {
            ExecMove::Stop(r2, s2, e2, a) => {
                assert(advance(gh.spec_repos(), gh.spec_token(), cur, tx@) == (
                    check_view(r2, s2, e2),
                    tx@,
                    action_view(a),
                ));
                return (r2, s2, e2, a);
            },
            ExecMove::Continue(r2, s2, e2) => {
                assert(advance(gh.spec_repos(), gh.spec_token(), cur, tx@) == advance(
                    gh.spec_repos(),
                    gh.spec_token(),
                    check_view(r2, s2, e2),
                    tx@,
                ));
                cur_repo = r2;
                cur_stage = s2;
                cur_entries = e2;
            },
        }
    }
}

/// The branch walk after recording the newest commit of the current branch.
fn record_exec(
    r: &RepoConfig,
    tx: &mut Transaction,
    w: BranchWalk,
    latest: String,
    cs: &Vec<Commit>,
) -> (nw: BranchWalk)
    requires
        w.next < w.branches@.len(),
        commits_printable(kept_commits(cs@, ignored_logins(*r))),
    ensures
        walk_view(nw) == walk_after(walk_view(w), kept_commits(cs@, ignored_logins(*r))),
        nw.next <= nw.branches@.len(),
        final(tx)@ == old(tx)@.insert(commit_key(*r, walk_view(w).branches[w.next as int]), latest@),
{
    let key = commit_key_exec(r, w.branches[w.next].as_str());
    assert(w.branches@[w.next as int]@ == walk_view(w).branches[w.next as int]);
    tx.set(key.as_str(), latest.as_str());
    let lines = kept_lines_exec(cs, &r.watch.ignore_authors);
    let mut found = w.found;
    if lines.len() > 0 {
        let e = branch_entry_exec(w.branches[w.next].as_str(), &lines);
        assert(e@ == branch_entry(
            walk_view(w).branches[w.next as int],
            kept_commits(cs@, ignored_logins(*r)),
        ));
        let ghost before = found@;
        found.push(e);
        assert(views(found@) =~= views(before).push(e@));
    }
    let n = w.branches.len();
    BranchWalk { branches: w.branches, next: w.next + 1, found }
}

/// What a reply does to the check, executed.
fn handle_exec(
    gh: &GitHub,
    repo: usize,
    stage: Stage,
    entries: Vec<String>,
    tx: &mut Transaction,
    reply: ApiReply,
) -> (m: ExecMove)
    requires
        state_ok(gh.repos@.len() as int, repo as int, stage),
        reply_fits(stage_view(stage), reply, ignored_logins(gh.spec_repos()[repo as int])),
    ensures
        exec_move_view(m, final(tx)@) == handle(
            gh.spec_repos(),
            gh.spec_token(),
            check_view(repo, stage, entries),
            old(tx)@,
            reply,
        ),
        exec_move_ok(gh.repos@.len() as int, m),
{
    let r = &gh.repos[repo];
    match (stage, reply) {
        (Stage::AwaitRepository, ApiReply::Repository(b)) => {
            let branch = match b {
                Some(b) => b,
                None => to_owned_string("main"),
            };
            let key = default_branch_key_exec(r);
            tx.set(key.as_str(), branch.as_str());
            let walk = BranchWalk { branches: single(branch), next: 0, found: Vec::new() };
            assert(views(walk.found@) =~= Seq::<Seq<char>>::empty());
            ExecMove::Continue(repo, Stage::NextBranch(walk), entries)
        },
        (Stage::AwaitBranches, ApiReply::Branches(l)) => {
            let branches = match l {
                Some(v) => v,
                None => {
                    let v: Vec<String> = Vec::new();
                    assert(views(v@) =~= Seq::<Seq<char>>::empty());
                    v
                },
            };
            let walk = BranchWalk { branches, next: 0, found: Vec::new() };
            assert(views(walk.found@) =~= Seq::<Seq<char>>::empty());
            ExecMove::Continue(repo, Stage::NextBranch(walk), entries)
        },
        (Stage::AwaitLatest(w), ApiReply::LatestCommit(latest)) => {
            match latest {
                None => ExecMove::Continue(repo, Stage::PullRequests, entries),
                Some(latest) => {
                    let key = commit_key_exec(r, w.branches[w.next].as_str());
                    assert(w.branches@[w.next as int]@ == walk_view(w).branches[w.next as int]);
                    let stored: Option<String> = match tx.get(key.as_str()) {
                        Some(s) => Some(to_owned_string(s)),
                        None => None,
                    };
                    match stored {
                        Some(old) => {
                            if old == latest {
                                let n = w.branches.len();
                                let walk = BranchWalk { next: w.next + 1, ..w };
                                ExecMove::Continue(repo, Stage::NextBranch(walk), entries)
                            } else {
                                let url = compare_url_exec(r, old.as_str(), latest.as_str());
                                let req = gh.request(ApiQuery::Compare, url);
                                ExecMove::Stop(
                                    repo,
                                    Stage::AwaitCompare(w, latest),
                                    entries,
                                    GitHubAction::Fetch(req),
                                )
                            }
                        },
                        None => {
                            let none: Vec<Commit> = Vec::new();
                            let walk = record_exec(r, tx, w, latest, &none);
                            ExecMove::Continue(repo, Stage::NextBranch(walk), entries)
                        },
                    }
                },
            }
        },
        (Stage::AwaitCompare(w, latest), ApiReply::Compare(c)) => {
            match c {
                CompareReply::Failed => {
                    let none: Vec<Commit> = Vec::new();
                    let walk = record_exec(r, tx, w, latest, &none);
                    ExecMove::Continue(repo, Stage::NextBranch(walk), entries)
                },
                CompareReply::Listed(cs) => {
                    let cs = match cs {
                        Some(cs) => cs,
                        None => Vec::new(),
                    };
                    let walk = record_exec(r, tx, w, latest, &cs);
                    ExecMove::Continue(repo, Stage::NextBranch(walk), entries)
                },
                CompareReply::NoCommitList => {
                    let url = recent_commits_url_exec(r, w.branches[w.next].as_str());
                    assert(w.branches@[w.next as int]@ == walk_view(w).branches[w.next as int]);
                    let req = gh.request(ApiQuery::RecentCommits, url);
                    ExecMove::Stop(
                        repo,
                        Stage::AwaitRecent(w, latest),
                        entries,
                        GitHubAction::Fetch(req),
                    )
                },
            }
        },
        (Stage::AwaitRecent(w, latest), ApiReply::RecentCommits(cs)) => {
            let cs = match cs {
                Some(cs) => cs,
                None => Vec::new(),
            };
            let walk = record_exec(r, tx, w, latest, &cs);
            ExecMove::Continue(repo, Stage::NextBranch(walk), entries)
        },
        (Stage::AwaitPullRequests, ApiReply::OpenPullRequests(prs)) => {
            match prs {
                None => ExecMove::Continue(repo, Stage::Releases, entries),
                Some(prs) => {
                    let e = check_prs(r, tx, &prs);
                    let mut entries = entries;
                    match e {
                        Some(e) => {
                            let ghost before = entries@;
                            entries.push(e);
                            assert(views(entries@) =~= views(before).push(e@));
                        },
                        None => {},
                    }
                    ExecMove::Continue(repo, Stage::Releases, entries)
                },
            }
        },
        (Stage::AwaitReleases, ApiReply::Releases(rs)) => {
            match rs {
                None => ExecMove::Continue(repo, Stage::RepoDone, entries),
                Some(rs) => {
                    let e = check_releases(r, tx, &rs);
                    let mut entries = entries;
                    match e {
                        Some(e) => {
                            let ghost before = entries@;
                            entries.push(e);
                            assert(views(entries@) =~= views(before).push(e@));
                        },
                        None => {},
                    }
                    ExecMove::Continue(repo, Stage::RepoDone, entries)
                },
            }
        },
        (other, _) => ExecMove::Stop(repo, other, entries, GitHubAction::Finished(None)),
    }
}

impl<'a> View for GitHubCheck<'a> {
    type V = CheckView;

    closed spec fn view(&self) -> CheckView {
        check_view(self.repo, self.stage, self.entries)
    }
}

impl<'a> GitHubCheck<'a> {
    #[verifier::type_invariant]
    spec fn inv(self) -> bool {
        state_ok(self.github.repos@.len() as int, self.repo as int, self.stage)
    }

    /// The notifier whose check this is.
    pub closed spec fn spec_github(&self) -> GitHub {
        *self.github
    }

    /// Whether `reply` answers the request that the check waits for, with
    /// commit hashes that can be shortened where the commits are reported.
    pub open spec fn accepts(&self, reply: ApiReply) -> bool {
        reply_fits(
            self@.stage,
            reply,
            ignored_logins(self.spec_github().spec_repos()[self@.repo]),
        )
    }

    /// Whether `reply` answers the request that the check waits for, with
    /// commit hashes that can be shortened where the commits are reported.
    pub fn fits(&self, reply: &ApiReply) -> (r: bool)
        ensures
            r == self.accepts(*reply),
    {
        proof {
            use_type_invariant(self);
        }
        match (&self.stage, reply) {
            (Stage::AwaitRepository, ApiReply::Repository(_)) => true,
            (Stage::AwaitBranches, ApiReply::Branches(_)) => true,
            (Stage::AwaitLatest(_), ApiReply::LatestCommit(_)) => true,
            (Stage::AwaitCompare(_, _), ApiReply::Compare(c)) => match c {
                CompareReply::Listed(Some(cs)) => kept_printable_exec(
                    cs,
                    &self.github.repos[self.repo].watch.ignore_authors,
                ),
                _ => true,
            },
            (Stage::AwaitRecent(_, _), ApiReply::RecentCommits(c)) => match c {
                Some(cs) => kept_printable_exec(
                    cs,
                    &self.github.repos[self.repo].watch.ignore_authors,
                ),
                None => true,
            },
            (Stage::AwaitPullRequests, ApiReply::OpenPullRequests(_)) => true,
            (Stage::AwaitReleases, ApiReply::Releases(_)) => true,
            _ => false,
        }
    }

    /// Hands the check the reply to its request; returns the check and what
    /// it asks for next.
    pub fn resume(self, tx: &mut Transaction, reply: ApiReply) -> (r: (GitHubCheck<'a>, GitHubAction))
        requires
            self.accepts(reply),
        ensures
            (r.0@, final(tx)@, action_view(r.1)) == resume_spec(
                self.spec_github().spec_repos(),
                self.spec_github().spec_token(),
                self@,
                old(tx)@,
                reply,
            ),
            r.0.spec_github() == self.spec_github(),
    {
        proof {
            use_type_invariant(&self);
        }
        let GitHubCheck { github, repo, stage, entries } = self;
        match handle_exec(github, repo, stage, entries, tx, reply) {
            ExecMove::Stop(r2, s2, e2, a) => (
                GitHubCheck { github, repo: r2, stage: s2, entries: e2 },
                a,
            ),
            ExecMove::Continue(r2, s2, e2) => {
                let (r3, s3, e3, a) = advance_exec(github, r2, s2, e2, tx);
                (GitHubCheck { github, repo: r3, stage: s3, entries: e3 }, a)
            },
        }
    }
}

impl GitHub {
    /// Starts a check of the watched repositories; returns the check and
    /// its first request, or its outcome when it needs none.
    pub fn check<'a>(&'a self, tx: &Transaction) -> (r: (GitHubCheck<'a>, GitHubAction))
        ensures
            (r.0@, tx@, action_view(r.1)) == start_spec(self.spec_repos(), self.spec_token(), tx@),
            r.0.spec_github() == *self,
    {
        let entries: Vec<String> = Vec::new();
        assert(views(entries@) =~= Seq::<Seq<char>>::empty());
        let (repo, stage, entries, a) = advance_exec(self, 0, Stage::Start, entries, tx);
        (GitHubCheck { github: self, repo, stage, entries }, a)
    }
}

} // verus!
