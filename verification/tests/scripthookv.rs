use simple_notifier::scripthookv::{extract_version, page_searchable_exec, PageCheck, ScriptHookV};
use simple_notifier::storage::Storage;

#[test]
fn test_extract_version() {
    let html = r#"<a href="/gtav/scripthookv/ScriptHookV_1.0.335.2.zip">Download</a>"#;
    assert_eq!(extract_version(html), Some("1.0.335.2".to_string()));
}

#[test]
fn test_extract_version_in_text() {
    let html = r#"Script Hook V v1.0.335.2 is available"#;
    assert_eq!(extract_version(html), Some("1.0.335.2".to_string()));
}

#[test]
fn test_extract_version_near_download() {
    let html = format!(
        "{}{}{}",
        "x".repeat(600),
        r#"<div class="downloadsSection"><a href="ScriptHookV_1.0.340.0.zip">"#,
        "y".repeat(200)
    );
    assert_eq!(extract_version(&html), Some("1.0.340.0".to_string()));
}

#[test]
fn extract_version_prefers_window_over_earlier_text() {
    let html = format!(
        "v9.9.9.9 {} download 1.2.3 and 1.2.3.4",
        "z".repeat(700)
    );
    assert_eq!(extract_version(&html), Some("1.2.3.4".to_string()));
}

#[test]
fn extract_version_first_of_longest() {
    assert_eq!(extract_version("1.22.3 then 1.2.33"), Some("1.22.3".to_string()));
}

#[test]
fn extract_version_none_without_version() {
    assert_eq!(extract_version("no numbers here 1.2"), None);
}

#[test]
fn window_inside_character_is_not_searchable() {
    // 499 ASCII bytes, then a two-byte character: byte 0 of the window would
    // be byte 1 of the page, which is fine; shift it into the character.
    let html = format!("é{}downloadsSection", "a".repeat(500));
    // `downloadsSection` starts at byte 502, so the window starts at byte 2
    assert!(page_searchable_exec(&html));
    let html2 = format!("é{}downloadsSection", "a".repeat(499));
    // the window would start at byte 1, inside `é`
    assert!(!page_searchable_exec(&html2));
}

#[test]
fn check_page_reports_first_and_changed_versions() {
    let storage = Storage::load("/s", &Vec::new());
    let mut tx = storage.transaction();
    let shv = ScriptHookV;
    match shv.check_page("ScriptHookV v1.0.1.0", &mut tx) {
        PageCheck::Changed(n) => {
            assert_eq!(n.title, "ScriptHookV 1.0.1.0 detected");
            assert_eq!(
                n.body,
                "Initial ScriptHookV version detected: 1.0.1.0\n\nhttp://www.dev-c.com/gtav/scripthookv/"
            );
        }
        _ => panic!("expected a first report"),
    }
    assert_eq!(tx.get("scripthookv_version"), Some("1.0.1.0"));
    assert!(matches!(shv.check_page("v1.0.1.0", &mut tx), PageCheck::Unchanged));
    match shv.check_page("v1.0.2.0", &mut tx) {
        PageCheck::Changed(n) => {
            assert_eq!(n.title, "ScriptHookV updated to 1.0.2.0");
            assert_eq!(
                n.body,
                "A new version of ScriptHookV is available: 1.0.2.0\n\nPrevious version: 1.0.1.0\n\nhttp://www.dev-c.com/gtav/scripthookv/"
            );
        }
        _ => panic!("expected an update report"),
    }
    assert!(matches!(shv.check_page("nothing", &mut tx), PageCheck::NoVersion));
    assert_eq!(tx.get("scripthookv_version"), Some("1.0.2.0"));
}
