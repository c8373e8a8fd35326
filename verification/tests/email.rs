use simple_notifier::email::{parse_mailbox, EmailSender};

#[test]
fn bare_address() {
    let m = parse_mailbox("me@example.com", "FROM_EMAIL").unwrap();
    assert_eq!(m.name, None);
    assert_eq!(m.user, "me");
    assert_eq!(m.domain, "example.com");
}

#[test]
fn named_address() {
    let m = parse_mailbox("  Jane Doe  < jane@example.org >", "TO_EMAIL").unwrap();
    assert_eq!(m.name.as_deref(), Some("Jane Doe"));
    assert_eq!(m.user, "jane");
    assert_eq!(m.domain, "example.org");
    let m = parse_mailbox("<a@b.c>", "TO_EMAIL").unwrap();
    assert_eq!(m.name, None);
}

#[test]
fn missing_at() {
    match parse_mailbox("nobody", "FROM_EMAIL") {
        Err(e) => assert_eq!(e, "invalid FROM_EMAIL: missing '@' in 'nobody'"),
        Ok(_) => panic!("accepted an address without '@'"),
    }
}

#[test]
fn invalid_user_and_domain() {
    match parse_mailbox("a b@example.com", "FROM_EMAIL") {
        Err(e) => assert_eq!(e, "invalid FROM_EMAIL address: Invalid email user"),
        Ok(_) => panic!("accepted an invalid user"),
    }
    match parse_mailbox("me@exa mple", "TO_EMAIL") {
        Err(e) => assert_eq!(e, "invalid TO_EMAIL address: Invalid email domain"),
        Ok(_) => panic!("accepted an invalid domain"),
    }
}

#[test]
fn angle_without_closing_is_a_bare_address() {
    match parse_mailbox("Jane <jane@example.org", "FROM_EMAIL") {
        Err(e) => assert_eq!(e, "invalid FROM_EMAIL address: Invalid email user"),
        Ok(_) => panic!("accepted an unclosed angle address"),
    }
}

#[test]
fn sender_settings() {
    let s = EmailSender::new("me@a.com", "Y <you@b.com>", "smtp.a.com", 587, "me", "pw").unwrap();
    assert_eq!(s.from.user, "me");
    assert_eq!(s.to.name.as_deref(), Some("Y"));
    assert_eq!(s.smtp_host, "smtp.a.com");
    assert_eq!(s.smtp_port, 587);
    assert_eq!(s.smtp_username, "me");
    assert_eq!(s.smtp_password, "pw");
    match EmailSender::new("bad", "also bad", "h", 25, "u", "p") {
        Err(e) => assert_eq!(e, "invalid FROM_EMAIL: missing '@' in 'bad'"),
        Ok(_) => panic!("accepted a bad sender"),
    }
    match EmailSender::new("me@a.com", "bad", "h", 25, "u", "p") {
        Err(e) => assert_eq!(e, "invalid TO_EMAIL: missing '@' in 'bad'"),
        Ok(_) => panic!("accepted a bad recipient"),
    }
}
