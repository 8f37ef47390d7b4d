use purr::query::{is_booleanish_match, matches_current_maintainer};

#[test]
fn no_query_asks_for_a_nonempty_list() {
    assert!(!matches_current_maintainer(&vec![], &None));
    assert!(matches_current_maintainer(&vec!["someone".to_string()], &None));
}

#[test]
fn query_matches_case_insensitively() {
    let maintainers = vec!["https://github.com/SomeBody".to_string()];
    assert!(matches_current_maintainer(&maintainers, &Some("somebody".to_string())));
    assert!(matches_current_maintainer(&maintainers, &Some("SOMEBODY".to_string())));
    assert!(matches_current_maintainer(&maintainers, &Some("body".to_string())));
    assert!(!matches_current_maintainer(&maintainers, &Some("nobody".to_string())));
}

#[test]
fn booleanish_true_asks_for_presence() {
    assert!(is_booleanish_match(Some("anything".to_string()), "true"));
    assert!(!is_booleanish_match(None, "true"));
}

#[test]
fn booleanish_false_asks_for_absence() {
    assert!(is_booleanish_match(None, "false"));
    assert!(!is_booleanish_match(Some("anything".to_string()), "false"));
}

#[test]
fn booleanish_other_words_ask_for_equality() {
    assert!(is_booleanish_match(Some("web".to_string()), "web"));
    assert!(!is_booleanish_match(Some("web".to_string()), "desktop"));
    assert!(!is_booleanish_match(None, "web"));
}
