use simple_notifier::runner::{test_notification, Schedule};
use simple_notifier::storage::Storage;

#[test]
fn sleep_lengths() {
    let s = Schedule { check_interval_minutes: 60, random_delay_min_minutes: 5, random_delay_max_minutes: 15 };
    assert_eq!(s.sleep_after(0), Some(3900));
    assert_eq!(s.sleep_after(10), Some(4500));
    for _ in 0..50 {
        let t = s.next_sleep().unwrap();
        assert!((3900..=4500).contains(&t));
        assert_eq!(t % 60, 0);
    }
}

#[test]
fn sleep_overflow_is_reported() {
    let s = Schedule {
        check_interval_minutes: u64::MAX / 60,
        random_delay_min_minutes: 1,
        random_delay_max_minutes: 1,
    };
    assert_eq!(s.sleep_after(0), None);
    assert_eq!(s.next_sleep(), None);
    let s = Schedule { check_interval_minutes: u64::MAX, random_delay_min_minutes: 1, random_delay_max_minutes: 1 };
    assert_eq!(s.sleep_after(0), None);
}

#[test]
fn test_mail_text() {
    let n = test_notification();
    assert_eq!(n.title, "simple-notifier: test email");
    assert_eq!(
        n.body,
        "This is a test email from simple-notifier. Email sending is configured correctly."
    );
}

#[test]
fn committed_changes_reach_the_next_check() {
    let mut storage = Storage::load("/s", &Vec::new());
    let mut t = storage.transaction();
    t.set("k", "v");
    storage.commit(t);
    assert_eq!(storage.transaction().get("k"), Some("v"));
    assert!(storage.is_dirty());
    let lines = storage.pending_lines().unwrap();
    assert_eq!(lines, vec!["k=v".to_string()]);
}
