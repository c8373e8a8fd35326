use simple_notifier::config::{
    default_branches, default_check_interval, default_random_delay_max, default_random_delay_min,
    expand_tilde, BranchesConfig, WatchConfig,
};

#[test]
fn defaults() {
    assert_eq!(default_check_interval(), 60);
    assert_eq!(default_random_delay_min(), 5);
    assert_eq!(default_random_delay_max(), 15);
    assert!(matches!(default_branches(), BranchesConfig::Default));
    let w = WatchConfig::default();
    assert!(!w.commits && !w.prs && !w.releases);
    assert!(w.ignore_authors.is_empty());
}

#[test]
fn branch_keywords() {
    assert!(matches!(BranchesConfig::from_keyword("default"), Some(BranchesConfig::Default)));
    assert!(matches!(BranchesConfig::from_keyword("all"), Some(BranchesConfig::All)));
    assert!(BranchesConfig::from_keyword("All").is_none());
    assert!(BranchesConfig::from_keyword("main").is_none());
    assert!(BranchesConfig::from_keyword("").is_none());
}

#[test]
fn tilde_is_expanded() {
    assert_eq!(
        expand_tilde("~/.local/state/x", "/home/me"),
        "/home/me/.local/state/x"
    );
    assert_eq!(expand_tilde("/var/state", "/home/me"), "/var/state");
    assert_eq!(expand_tilde("~user/x", "/home/me"), "~user/x");
    assert_eq!(expand_tilde("~/", "/h"), "/h/");
}
