use simple_notifier::storage::Storage;

#[test]
fn discarded_transaction_does_not_change_storage() {
    let storage = Storage::load("/does/not/exist", &Vec::new());
    let mut transaction = storage.transaction();
    transaction.set("key", "new");

    drop(transaction);

    assert_eq!(storage.transaction().get("key"), None);
    assert!(!storage.is_dirty());
}

#[test]
fn committed_transaction_changes_storage() {
    let mut storage = Storage::load("/does/not/exist", &Vec::new());
    let mut transaction = storage.transaction();
    transaction.set("key", "new");

    storage.commit(transaction);

    assert_eq!(storage.transaction().get("key"), Some("new"));
    assert!(storage.is_dirty());
}

fn lines(v: &[&str]) -> Vec<String> {
    v.iter().map(|s| s.to_string()).collect()
}

#[test]
fn load_skips_comments_blank_and_malformed_lines() {
    let storage = Storage::load(
        "/state",
        &lines(&["# comment", "", "   ", "no separator", "  a = 1  ", "b=x=y", "=empty key"]),
    );
    let t = storage.transaction();
    assert_eq!(t.get("a"), Some("1"));
    assert_eq!(t.get("b"), Some("x=y"));
    assert_eq!(t.get(""), Some("empty key"));
    assert_eq!(t.get("no separator"), None);
    assert_eq!(t.get("# comment"), None);
    assert_eq!(storage.path(), "/state");
    assert!(!storage.is_dirty());
}

#[test]
fn load_later_line_wins() {
    let storage = Storage::load("/s", &lines(&["k=old", "k=new"]));
    assert_eq!(storage.transaction().get("k"), Some("new"));
}

#[test]
fn load_trims_unicode_whitespace() {
    let storage = Storage::load("/s", &lines(&["\u{3000}k\u{a0}=\tv\u{2003}"]));
    assert_eq!(storage.transaction().get("k"), Some("v"));
}

#[test]
fn commit_without_changes_keeps_storage_clean() {
    let mut storage = Storage::load("/s", &lines(&["k=v"]));
    let mut t = storage.transaction();
    t.set("k", "v");
    storage.commit(t);
    assert!(!storage.is_dirty());
    assert_eq!(storage.pending_lines(), None);
}

#[test]
fn saved_lines_read_back() {
    let mut storage = Storage::load("/s", &lines(&["a=1"]));
    let mut t = storage.transaction();
    t.set("b", "two words");
    t.set("a", "3");
    storage.commit(t);
    let saved = storage.pending_lines().expect("dirty storage has lines to save");
    let mut sorted = saved.clone();
    sorted.sort();
    assert_eq!(sorted, vec!["a=3".to_string(), "b=two words".to_string()]);
    let reloaded = Storage::load("/s", &saved);
    assert_eq!(reloaded.transaction().get("a"), Some("3"));
    assert_eq!(reloaded.transaction().get("b"), Some("two words"));
    storage.mark_saved();
    assert!(!storage.is_dirty());
    assert_eq!(storage.pending_lines(), None);
}

#[test]
fn set_then_get_other_keys_untouched() {
    let storage = Storage::load("/s", &lines(&["x=1", "y=2"]));
    let mut t = storage.transaction();
    t.set("x", "9");
    assert_eq!(t.get("x"), Some("9"));
    assert_eq!(t.get("y"), Some("2"));
    assert_eq!(storage.transaction().get("x"), Some("1"));
}

#[test]
fn empty_key_reads_back() {
    let mut storage = Storage::load("/s", &Vec::new());
    let mut t = storage.transaction();
    t.set("", "v");
    t.set("k", "");
    storage.commit(t);
    let saved = storage.pending_lines().expect("dirty storage has lines to save");
    let mut sorted = saved.clone();
    sorted.sort();
    assert_eq!(sorted, vec!["=v".to_string(), "k=".to_string()]);
    let reloaded = Storage::load("/s", &saved).transaction();
    assert_eq!(reloaded.get(""), Some("v"));
    assert_eq!(reloaded.get("k"), Some(""));
}
