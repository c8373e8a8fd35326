use simple_notifier::config::{BranchesConfig, RepoConfig, WatchConfig};
use simple_notifier::github::{
    check_prs, check_releases, ApiQuery, ApiReply, Commit, CompareReply, GitHub, GitHubAction,
    PullRequest, Release,
};
use simple_notifier::notifier::Notification;
use simple_notifier::storage::{Storage, Transaction};

fn repo(branches: BranchesConfig, commits: bool, prs: bool, releases: bool) -> RepoConfig {
    RepoConfig {
        owner: "o".to_string(),
        repo: "r".to_string(),
        watch: WatchConfig { commits, prs, releases, ignore_authors: Vec::new() },
        branches,
    }
}

fn empty_tx() -> Transaction {
    Storage::load("/s", &Vec::new()).transaction()
}

/// Runs a check, answering each request with the reply that `answer` gives.
fn run(
    gh: &GitHub,
    tx: &mut Transaction,
    mut answer: impl FnMut(ApiQuery, &str) -> ApiReply,
) -> (Vec<(ApiQuery, String)>, Option<Notification>) {
    let mut asked = Vec::new();
    let (mut check, mut action) = gh.check(tx);
    loop {
        match action {
            GitHubAction::Finished(n) => return (asked, n),
            GitHubAction::Fetch(req) => {
                asked.push((req.query, req.url.clone()));
                let reply = answer(req.query, &req.url);
                assert!(check.fits(&reply));
                let (c, a) = check.resume(tx, reply);
                check = c;
                action = a;
            }
        }
    }
}

fn commit(sha: &str, author: Option<&str>, message: &str) -> Commit {
    Commit {
        sha: sha.to_string(),
        author: author.map(|a| a.to_string()),
        login: None,
        message: message.to_string(),
    }
}

fn commit_by(login: &str, sha: &str, author: &str, message: &str) -> Commit {
    Commit {
        sha: sha.to_string(),
        author: Some(author.to_string()),
        login: Some(login.to_string()),
        message: message.to_string(),
    }
}

fn repo_ignoring(branch: &str, ignored: &[&str]) -> RepoConfig {
    let mut r = repo(BranchesConfig::List(vec![branch.to_string()]), true, false, false);
    r.watch.ignore_authors = ignored.iter().map(|s| s.to_string()).collect();
    r
}

#[test]
fn nothing_watched_asks_nothing() {
    let gh = GitHub::new(vec![repo(BranchesConfig::Default, false, false, false)], None);
    let mut tx = empty_tx();
    let (asked, n) = run(&gh, &mut tx, |_, _| unreachable!());
    assert!(asked.is_empty());
    assert!(n.is_none());
}

#[test]
fn default_branch_is_fetched_cached_and_first_commit_recorded() {
    let gh = GitHub::new(
        vec![repo(BranchesConfig::Default, true, false, false)],
        Some("tok".to_string()),
    );
    let mut tx = empty_tx();
    let (check, action) = gh.check(&tx);
    match &action {
        GitHubAction::Fetch(req) => {
            assert_eq!(req.query, ApiQuery::Repository);
            assert_eq!(req.url, "https://api.github.com/repos/o/r");
            assert_eq!(req.authorization.as_deref(), Some("Bearer tok"));
        }
        _ => panic!("expected a request"),
    }
    let (check, action) = check.resume(&mut tx, ApiReply::Repository(Some("dev".to_string())));
    assert_eq!(tx.get("github_default_branch_o_r"), Some("dev"));
    match &action {
        GitHubAction::Fetch(req) => {
            assert_eq!(req.query, ApiQuery::LatestCommit);
            assert_eq!(req.url, "https://api.github.com/repos/o/r/commits?sha=dev&per_page=1");
        }
        _ => panic!("expected a request"),
    }
    let (_, action) = check.resume(&mut tx, ApiReply::LatestCommit(Some("abc123".to_string())));
    assert!(matches!(action, GitHubAction::Finished(None)));
    assert_eq!(tx.get("github_commits_o_r_dev"), Some("abc123"));
}

#[test]
fn failed_default_branch_falls_back_to_main() {
    let gh = GitHub::new(vec![repo(BranchesConfig::Default, true, false, false)], None);
    let mut tx = empty_tx();
    let (asked, n) = run(&gh, &mut tx, |q, _| match q {
        ApiQuery::Repository => ApiReply::Repository(None),
        ApiQuery::LatestCommit => ApiReply::LatestCommit(None),
        _ => unreachable!(),
    });
    assert_eq!(tx.get("github_default_branch_o_r"), Some("main"));
    assert_eq!(asked[1].1, "https://api.github.com/repos/o/r/commits?sha=main&per_page=1");
    assert!(n.is_none());
}

#[test]
fn new_commits_are_reported() {
    let gh = GitHub::new(vec![repo(BranchesConfig::Default, true, false, false)], None);
    let mut tx = empty_tx();
    tx.set("github_default_branch_o_r", "main");
    tx.set("github_commits_o_r_main", "old");
    let (asked, n) = run(&gh, &mut tx, |q, _| match q {
        ApiQuery::LatestCommit => ApiReply::LatestCommit(Some("new".to_string())),
        ApiQuery::Compare => ApiReply::Compare(CompareReply::Listed(Some(vec![
            commit("0123456789abcdef", Some("Ann"), "Fix it\r\nmore text"),
            commit("abc", None, ""),
        ]))),
        _ => unreachable!(),
    });
    assert_eq!(asked.len(), 2);
    assert_eq!(asked[1].1, "https://api.github.com/repos/o/r/compare/old...new");
    let n = n.expect("a report");
    assert_eq!(n.title, "GitHub update (1 event)");
    assert_eq!(
        n.body,
        "[o/r] New commits:\n  main:\n    0123456 - Ann - \"Fix it\"\n    abc - unknown - \"\""
    );
    assert_eq!(tx.get("github_commits_o_r_main"), Some("new"));
}

#[test]
fn same_commit_is_not_reported() {
    let gh = GitHub::new(
        vec![repo(BranchesConfig::List(vec!["a".to_string(), "b".to_string()]), true, false, false)],
        None,
    );
    let mut tx = empty_tx();
    tx.set("github_commits_o_r_a", "s1");
    tx.set("github_commits_o_r_b", "s2");
    let (asked, n) = run(&gh, &mut tx, |_, url| {
        if url.contains("sha=a&") {
            ApiReply::LatestCommit(Some("s1".to_string()))
        } else {
            ApiReply::LatestCommit(Some("s2".to_string()))
        }
    });
    assert_eq!(asked.len(), 2);
    assert!(n.is_none());
}

#[test]
fn compare_without_commit_list_falls_back_to_recent_commits() {
    let gh = GitHub::new(vec![repo(BranchesConfig::List(vec!["x".to_string()]), true, false, false)], None);
    let mut tx = empty_tx();
    tx.set("github_commits_o_r_x", "old");
    let (asked, n) = run(&gh, &mut tx, |q, _| match q {
        ApiQuery::LatestCommit => ApiReply::LatestCommit(Some("new".to_string())),
        ApiQuery::Compare => ApiReply::Compare(CompareReply::NoCommitList),
        ApiQuery::RecentCommits => ApiReply::RecentCommits(Some(vec![commit("ffffffffff", Some("Bo"), "one\ntwo")])),
        _ => unreachable!(),
    });
    assert_eq!(asked[2].1, "https://api.github.com/repos/o/r/commits?sha=x&per_page=30");
    assert_eq!(n.unwrap().body, "[o/r] New commits:\n  x:\n    fffffff - Bo - \"one\"");
}

#[test]
fn failed_latest_commit_abandons_the_repository_commits() {
    let gh = GitHub::new(
        vec![repo(BranchesConfig::List(vec!["a".to_string(), "b".to_string()]), true, false, false)],
        None,
    );
    let mut tx = empty_tx();
    let (asked, n) = run(&gh, &mut tx, |_, url| {
        if url.contains("sha=a&") {
            ApiReply::LatestCommit(Some("s1".to_string()))
        } else {
            ApiReply::LatestCommit(None)
        }
    });
    assert_eq!(asked.len(), 2);
    assert!(n.is_none());
    assert_eq!(tx.get("github_commits_o_r_a"), Some("s1"));
}

#[test]
fn all_branches_are_listed() {
    let gh = GitHub::new(vec![repo(BranchesConfig::All, true, false, false)], None);
    let mut tx = empty_tx();
    let (asked, _) = run(&gh, &mut tx, |q, _| match q {
        ApiQuery::Branches => ApiReply::Branches(Some(vec!["m".to_string(), "n".to_string()])),
        ApiQuery::LatestCommit => ApiReply::LatestCommit(Some("s".to_string())),
        _ => unreachable!(),
    });
    assert_eq!(asked[0].1, "https://api.github.com/repos/o/r/branches?per_page=100");
    assert_eq!(asked.len(), 3);
    assert_eq!(tx.get("github_commits_o_r_n"), Some("s"));
}

fn pr(number: i64, title: &str, author: &str) -> PullRequest {
    PullRequest { number, title: title.to_string(), author: author.to_string() }
}

#[test]
fn first_pr_check_records_max_only() {
    let r = repo(BranchesConfig::Default, false, true, false);
    let mut tx = empty_tx();
    assert_eq!(check_prs(&r, &mut tx, &vec![pr(3, "a", "x"), pr(7, "b", "y")]), None);
    assert_eq!(tx.get("github_prs_max_o_r"), Some("7"));
}

#[test]
fn new_prs_are_reported_once() {
    let r = repo(BranchesConfig::Default, false, true, false);
    let mut tx = empty_tx();
    tx.set("github_prs_max_o_r", "5");
    let prs = vec![pr(9, "Nine", "ann"), pr(4, "Four", "bob"), pr(6, "Six", "cy")];
    let e = check_prs(&r, &mut tx, &prs);
    assert_eq!(
        e.as_deref(),
        Some("[o/r] New PRs:\n  PR #9: \"Nine\" by ann\n  PR #6: \"Six\" by cy")
    );
    assert_eq!(tx.get("github_prs_max_o_r"), Some("9"));
    assert_eq!(check_prs(&r, &mut tx, &prs), None);
}

#[test]
fn unreadable_pr_record_counts_as_first_run() {
    let r = repo(BranchesConfig::Default, false, true, false);
    let mut tx = empty_tx();
    tx.set("github_prs_max_o_r", "seven");
    assert_eq!(check_prs(&r, &mut tx, &vec![pr(-2, "neg", "z")]), None);
    assert_eq!(tx.get("github_prs_max_o_r"), Some("-2"));
}

fn rel(tag: &str, name: &str) -> Release {
    Release { tag_name: tag.to_string(), name: name.to_string() }
}

#[test]
fn first_release_check_records_tags_only() {
    let r = repo(BranchesConfig::Default, false, false, true);
    let mut tx = empty_tx();
    assert_eq!(check_releases(&r, &mut tx, &vec![rel("v2", "Two"), rel("v1", "")]), None);
    assert_eq!(tx.get("github_releases_seen_o_r"), Some("v2,v1"));
}

#[test]
fn new_releases_are_reported_once() {
    let r = repo(BranchesConfig::Default, false, false, true);
    let mut tx = empty_tx();
    tx.set("github_releases_seen_o_r", " v1 ,,v0");
    let rs = vec![rel("v3", "Third"), rel("v2", "v2"), rel("v1", "One")];
    let e = check_releases(&r, &mut tx, &rs);
    assert_eq!(
        e.as_deref(),
        Some("[o/r] New releases:\n  Release v3 - \"Third\"\n  Release v2")
    );
    assert_eq!(tx.get("github_releases_seen_o_r"), Some("v1,v0,v3,v2"));
    assert_eq!(check_releases(&r, &mut tx, &rs), None);
}

#[test]
fn report_counts_events_across_repositories() {
    let gh = GitHub::new(
        vec![
            repo(BranchesConfig::Default, false, true, true),
            RepoConfig {
                owner: "p".to_string(),
                repo: "q".to_string(),
                watch: WatchConfig { commits: false, prs: true, releases: false, ignore_authors: Vec::new() },
                branches: BranchesConfig::Default,
            },
        ],
        None,
    );
    let mut tx = empty_tx();
    tx.set("github_prs_max_o_r", "1");
    tx.set("github_releases_seen_o_r", "v1");
    tx.set("github_prs_max_p_q", "1");
    let (asked, n) = run(&gh, &mut tx, |q, url| match q {
        ApiQuery::OpenPullRequests => {
            if url.contains("/o/r/") {
                ApiReply::OpenPullRequests(Some(vec![pr(2, "t", "u")]))
            } else {
                ApiReply::OpenPullRequests(Some(vec![pr(3, "s", "v")]))
            }
        }
        ApiQuery::Releases => ApiReply::Releases(Some(vec![rel("v2", "")])),
        _ => unreachable!(),
    });
    assert_eq!(asked.len(), 3);
    assert_eq!(
        asked[0].1,
        "https://api.github.com/repos/o/r/pulls?state=open&per_page=100&sort=created&direction=desc"
    );
    assert_eq!(
        asked[1].1,
        "https://api.github.com/repos/o/r/releases?per_page=10&sort=created&direction=desc"
    );
    let n = n.unwrap();
    assert_eq!(n.title, "GitHub update (3 events)");
    assert_eq!(
        n.body,
        "[o/r] New PRs:\n  PR #2: \"t\" by u\n\n----\n\n[o/r] New releases:\n  Release v2\n\n----\n\n[p/q] New PRs:\n  PR #3: \"s\" by v"
    );
}

#[test]
fn unprintable_commit_hash_is_refused() {
    let gh = GitHub::new(vec![repo(BranchesConfig::List(vec!["x".to_string()]), true, false, false)], None);
    let mut tx = empty_tx();
    tx.set("github_commits_o_r_x", "old");
    let (check, _) = gh.check(&tx);
    let (check, _) = check.resume(&mut tx, ApiReply::LatestCommit(Some("new".to_string())));
    // byte 7 falls inside the two-byte `é`
    let bad = ApiReply::Compare(CompareReply::Listed(Some(vec![commit("abcdeféz", None, "m")])));
    assert!(!check.fits(&bad));
    let good = ApiReply::Compare(CompareReply::Listed(Some(vec![commit("abcdeéz", None, "m")])));
    assert!(check.fits(&good));
}

#[test]
fn failed_or_unreadable_comparison_records_without_report() {
    for reply in [CompareReply::Failed, CompareReply::Listed(None), CompareReply::Listed(Some(Vec::new()))] {
        let gh = GitHub::new(vec![repo(BranchesConfig::List(vec!["x".to_string()]), true, false, false)], None);
        let mut tx = empty_tx();
        tx.set("github_commits_o_r_x", "old");
        let mut reply = Some(reply);
        let (asked, n) = run(&gh, &mut tx, |q, _| match q {
            ApiQuery::LatestCommit => ApiReply::LatestCommit(Some("new".to_string())),
            ApiQuery::Compare => ApiReply::Compare(reply.take().unwrap()),
            _ => unreachable!(),
        });
        assert_eq!(asked.len(), 2);
        assert!(n.is_none());
        assert_eq!(tx.get("github_commits_o_r_x"), Some("new"));
    }
}

#[test]
fn failed_pull_request_and_release_fetches_change_nothing() {
    let gh = GitHub::new(vec![repo(BranchesConfig::Default, false, true, true)], None);
    let mut tx = empty_tx();
    tx.set("github_prs_max_o_r", "1");
    let (asked, n) = run(&gh, &mut tx, |q, _| match q {
        ApiQuery::OpenPullRequests => ApiReply::OpenPullRequests(None),
        ApiQuery::Releases => ApiReply::Releases(None),
        _ => unreachable!(),
    });
    assert_eq!(asked.len(), 2);
    assert!(n.is_none());
    assert_eq!(tx.get("github_prs_max_o_r"), Some("1"));
    assert_eq!(tx.get("github_releases_seen_o_r"), None);
}

#[test]
fn commits_by_ignored_authors_are_left_out() {
    let gh = GitHub::new(vec![repo_ignoring("main", &["bot", "me"])], None);
    let mut tx = empty_tx();
    tx.set("github_commits_o_r_main", "old");
    let (_, n) = run(&gh, &mut tx, |q, _| match q {
        ApiQuery::LatestCommit => ApiReply::LatestCommit(Some("new".to_string())),
        ApiQuery::Compare => ApiReply::Compare(CompareReply::Listed(Some(vec![
            commit_by("bot", "1111111111", "Bot", "bump"),
            commit_by("ann", "2222222222", "Ann", "feature"),
            commit("3333333333", Some("Cy"), "fix"),
            commit_by("me", "4444444444", "Me", "mine"),
        ]))),
        _ => unreachable!(),
    });
    assert_eq!(
        n.expect("a report").body,
        "[o/r] New commits:\n  main:\n    2222222 - Ann - \"feature\"\n    3333333 - Cy - \"fix\""
    );
    assert_eq!(tx.get("github_commits_o_r_main"), Some("new"));
}

#[test]
fn branch_with_only_ignored_commits_adds_no_entry() {
    let gh = GitHub::new(vec![repo_ignoring("main", &["bot"])], None);
    let mut tx = empty_tx();
    tx.set("github_commits_o_r_main", "old");
    let (asked, n) = run(&gh, &mut tx, |q, _| match q {
        ApiQuery::LatestCommit => ApiReply::LatestCommit(Some("new".to_string())),
        ApiQuery::Compare => ApiReply::Compare(CompareReply::Listed(Some(vec![
            commit_by("bot", "1111111111", "Bot", "bump"),
            commit_by("bot", "5555555555", "Bot", "bump again"),
        ]))),
        _ => unreachable!(),
    });
    assert_eq!(asked.len(), 2);
    assert!(n.is_none());
    assert_eq!(tx.get("github_commits_o_r_main"), Some("new"));
}

#[test]
fn ignored_commit_hash_need_not_be_printable() {
    let gh = GitHub::new(vec![repo_ignoring("x", &["bot"])], None);
    let mut tx = empty_tx();
    tx.set("github_commits_o_r_x", "old");
    let (check, _) = gh.check(&tx);
    let (check, _) = check.resume(&mut tx, ApiReply::LatestCommit(Some("new".to_string())));
    let ignored_bad = ApiReply::Compare(CompareReply::Listed(Some(vec![commit_by("bot", "abcdeféz", "B", "m")])));
    assert!(check.fits(&ignored_bad));
    let reported_bad = ApiReply::Compare(CompareReply::Listed(Some(vec![commit_by("ann", "abcdeféz", "A", "m")])));
    assert!(!check.fits(&reported_bad));
}
