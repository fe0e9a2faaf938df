use winstow::error::StowError;
use winstow::ignore::{PatternMatcher, PatternSet};
use winstow::path_utils::StowPath;

fn p(text: &str) -> StowPath {
    StowPath::parse(text)
}

#[test]
fn test_pattern_matcher_creation() {
    let patterns = vec!["*.bak".to_string(), "*.tmp".to_string()];
    let matcher = PatternMatcher::new(&patterns).unwrap();
    assert_eq!(matcher.len(), 2);
    assert!(!matcher.is_empty());
}

#[test]
fn test_pattern_matcher_empty() {
    let matcher = PatternMatcher::new(&[]).unwrap();
    assert!(matcher.is_empty());
    assert_eq!(matcher.len(), 0);
}

#[test]
fn test_invalid_pattern() {
    let patterns = vec!["[invalid".to_string()];
    assert!(PatternMatcher::new(&patterns).is_err());
}

#[test]
fn test_matches_filename() {
    let patterns = vec!["*.bak".to_string()];
    let matcher = PatternMatcher::new(&patterns).unwrap();

    assert!(matcher.matches(&p("file.bak")));
    assert!(matcher.matches(&p("dir/file.bak")));
    assert!(!matcher.matches(&p("file.txt")));
}

#[test]
fn test_matches_exact_name() {
    let patterns = vec![".DS_Store".to_string()];
    let matcher = PatternMatcher::new(&patterns).unwrap();

    assert!(matcher.matches(&p(".DS_Store")));
    assert!(matcher.matches(&p("dir/.DS_Store")));
    assert!(!matcher.matches(&p("DS_Store")));
}

#[test]
fn test_matches_path_component() {
    let patterns = vec!["node_modules".to_string()];
    let matcher = PatternMatcher::new(&patterns).unwrap();

    assert!(matcher.matches(&p("node_modules")));
    assert!(matcher.matches(&p("node_modules/package")));
    assert!(matcher.matches(&p("dir/node_modules/file")));
}

#[test]
fn test_multiple_patterns() {
    let patterns = vec!["*.bak".to_string(), "*.tmp".to_string(), ".git".to_string()];
    let matcher = PatternMatcher::new(&patterns).unwrap();

    assert!(matcher.matches(&p("file.bak")));
    assert!(matcher.matches(&p("file.tmp")));
    assert!(matcher.matches(&p(".git")));
    assert!(!matcher.matches(&p("file.txt")));
}

#[test]
fn test_pattern_set() {
    let ignore = vec!["*.bak".to_string()];
    let defer = vec!["*.lock".to_string()];
    let set = PatternSet::new(&ignore, &defer).unwrap();

    assert!(set.should_ignore(&p("file.bak")));
    assert!(!set.should_ignore(&p("file.lock")));

    assert!(set.should_defer(&p("file.lock")));
    assert!(!set.should_defer(&p("file.bak")));
}

#[test]
fn test_pattern_set_empty() {
    let set = PatternSet::empty();

    assert!(!set.should_ignore(&p("file.txt")));
    assert!(!set.should_defer(&p("file.txt")));
}

#[test]
fn test_invalid_pattern_message() {
    let patterns = vec!["ok".to_string(), "[invalid".to_string(), "a***".to_string()];
    match PatternMatcher::new(&patterns) {
        Err(StowError::PatternError(m)) => assert_eq!(
            m,
            "Invalid pattern '[invalid': Pattern syntax error near position 0: invalid range pattern"
        ),
        other => panic!("unexpected {:?}", other),
    }
    let bad_defer = vec!["a***".to_string()];
    match PatternSet::new(&["*".to_string()], &bad_defer) {
        Err(StowError::PatternError(m)) => assert!(m.starts_with("Invalid pattern 'a***': ")),
        other => panic!("unexpected {:?}", other.map(|_| ())),
    }
    match PatternSet::new(&patterns, &bad_defer) {
        Err(StowError::PatternError(m)) => assert!(m.starts_with("Invalid pattern '[invalid': ")),
        other => panic!("unexpected {:?}", other.map(|_| ())),
    }
}

#[test]
fn test_matches_whole_path_and_root() {
    let matcher = PatternMatcher::new(&["/stow/*/secret".to_string()]).unwrap();
    assert!(matcher.matches(&p("/stow/pkg/secret")));
    assert!(!matcher.matches(&p("/stow/pkg/other")));
    // The root of an absolute path is a component of its own.
    let one = PatternMatcher::new(&["?".to_string()]).unwrap();
    assert!(one.matches(&p("/long/names")));
    assert!(!one.matches(&p("long/names")));
    let up = PatternMatcher::new(&["..".to_string()]).unwrap();
    assert!(up.matches(&p("../x")));
    assert!(!up.matches(&p("x")));
}
