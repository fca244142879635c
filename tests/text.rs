use focus_core::text::{join_from, split_words, strip_prefix, trim_text};

#[test]
fn split_words_drops_all_white_space() {
    assert_eq!(split_words("  a  bc\td\n"), vec!["a", "bc", "d"]);
    assert!(split_words("").is_empty());
    assert!(split_words(" \u{3000} ").is_empty());
    assert_eq!(split_words("x\u{a0}y"), vec!["x", "y"]);
}

#[test]
fn join_from_uses_single_spaces() {
    let ws = vec!["a".to_string(), "b".to_string(), "c".to_string()];
    assert_eq!(join_from(&ws, 0), "a b c");
    assert_eq!(join_from(&ws, 2), "c");
}

#[test]
fn strip_prefix_only_when_it_matches() {
    assert_eq!(strip_prefix("/cmd", "/"), Some("cmd".to_string()));
    assert_eq!(strip_prefix("cmd", "/"), None);
    assert_eq!(strip_prefix("/", "//"), None);
    assert_eq!(strip_prefix("abc", ""), Some("abc".to_string()));
}

#[test]
fn trim_removes_both_ends() {
    assert_eq!(trim_text("  hi there \n"), "hi there");
    assert_eq!(trim_text("   "), "");
    assert_eq!(trim_text("x"), "x");
}
