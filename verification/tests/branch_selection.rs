use yaml_filter::branch_selection::{key_matches_any_pattern, key_matches_pattern};

#[test]
fn test_key_matches_any_pattern() {
    assert!(!key_matches_any_pattern(
        &vec!["key-with-list"],
        "nested-key"
    ));
    assert!(!key_matches_any_pattern(
        &vec!["key-with-list", "nested"],
        "nested-key"
    ));
    assert!(key_matches_any_pattern(&vec!["main"], "main.nested-key"));
    assert!(key_matches_any_pattern(
        &vec!["*.nested-key"],
        "main.nested-key"
    ));
    assert!(key_matches_any_pattern(&vec!["main.*"], "main.nested-key"));
    assert!(key_matches_any_pattern(&vec!["*"], "main.nested-key"));
    assert!(!key_matches_any_pattern(
        &vec!["nested-key"],
        "main.nested-key"
    ));
    assert!(key_matches_any_pattern(
        &vec!["main.nested-key"],
        "main.nested-key"
    ));
    assert!(key_matches_any_pattern(&vec!["main.nested-key"], "main"));
    assert!(key_matches_any_pattern(&vec!["main"], "main.1"));
    assert!(key_matches_any_pattern(&vec!["main.1"], "main.1"));
    assert!(key_matches_any_pattern(&vec!["main.*"], "main.1"));
    assert!(!key_matches_any_pattern(&vec!["main.0"], "main.1"));
    assert!(!key_matches_any_pattern(&vec!["*.0"], "main.1"));
    assert!(key_matches_any_pattern(
        &vec!["X", "main"],
        "main.nested-key"
    ));
    assert!(key_matches_any_pattern(&vec!["X", "main.1"], "main.1"));
    assert!(key_matches_any_pattern(&vec!["X", "main.*"], "main.1"));
}

#[test]
fn no_patterns_match_nothing() {
    let none: Vec<&str> = Vec::new();
    assert!(!key_matches_any_pattern(&none, "main"));
    assert!(!key_matches_any_pattern(&none, ""));
}

#[test]
fn wildcard_matches_every_key() {
    for key in ["", "a", "a.b.c", ".", "main.nested-key", "x..y"] {
        assert!(key_matches_pattern(key, "*"));
    }
}

#[test]
fn every_key_matches_itself() {
    for key in ["", "a", "a.b.c", ".", "main.nested-key", "x..y"] {
        assert!(key_matches_pattern(key, key));
    }
}

#[test]
fn a_match_extends_to_keys_below() {
    assert!(key_matches_pattern("main", "main"));
    assert!(key_matches_pattern("main.nested-key", "main"));
    assert!(key_matches_pattern("main.nested-key.deeper", "main"));
    assert!(key_matches_pattern("main.1.x", "*.1"));
}

#[test]
fn a_match_extends_to_patterns_below() {
    assert!(key_matches_pattern("main", "main.anything"));
    assert!(key_matches_pattern("main", "main.a.b"));
    assert!(!key_matches_pattern("other", "main.a.b"));
}

#[test]
fn segments_are_compared_whole() {
    assert!(!key_matches_pattern("main", "mai"));
    assert!(!key_matches_pattern("mai", "main"));
    assert!(!key_matches_pattern("main.nested", "main.nest"));
    assert!(!key_matches_pattern("a.b", "a.*x"));
    assert!(key_matches_pattern("a.", "a."));
    assert!(!key_matches_pattern("a.", "a.b"));
    assert!(key_matches_pattern("", "*"));
    assert!(!key_matches_pattern("", "a"));
}
