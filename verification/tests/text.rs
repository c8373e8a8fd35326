use simple_notifier::text::{
    count_char_exec, i64_to_text, join_strings, parse_i64_exec, split_str, trim_str, trimmed_pieces,
};

#[test]
fn integer_text_round_trip() {
    for n in [0i64, 7, -7, 10, 1234567890, i64::MAX, i64::MIN] {
        assert_eq!(i64_to_text(n), n.to_string());
        assert_eq!(parse_i64_exec(&n.to_string()), Some(n));
    }
}

#[test]
fn integer_parse_matches_std() {
    for s in [
        "", "-", "+", "+5", "-0", "007", " 1", "1 ", "1a", "9223372036854775807",
        "9223372036854775808", "-9223372036854775808", "-9223372036854775809",
        "00000000000000000000000000012", "+-1", "٣",
    ] {
        assert_eq!(parse_i64_exec(s), s.parse::<i64>().ok(), "{s:?}");
    }
}

#[test]
fn split_join_trim() {
    assert_eq!(split_str("a,,b,", ','), vec!["a", "", "b", ""]);
    assert_eq!(split_str("", ','), vec![""]);
    assert_eq!(join_strings(&vec!["x".to_string(), "y".to_string()], ", "), "x, y");
    assert_eq!(join_strings(&Vec::new(), ","), "");
    assert_eq!(trim_str("\u{85} a b \u{2028}"), "a b");
    assert_eq!(trimmed_pieces(" a , ,b", ','), vec!["a", "b"]);
    assert_eq!(count_char_exec("1.2.3", '.'), 2);
}
