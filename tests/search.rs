use chat_wasm::{contains_all_terms, search_contains_indices, split_terms};

fn texts(v: &[&str]) -> Vec<String> {
    v.iter().map(|s| s.to_string()).collect()
}

#[test]
fn search_is_case_insensitive() {
    let m = texts(&["Hello World", "foo bar", "HELLO there"]);
    assert_eq!(search_contains_indices(m, "hello".to_string(), 10), vec![0, 2]);
}

#[test]
fn search_folds_the_query_too() {
    let m = texts(&["hello world", "foo bar"]);
    assert_eq!(search_contains_indices(m, "  HeLLo ".to_string(), 10), vec![0]);
}

#[test]
fn search_whitespace_query_matches_nothing() {
    let m = texts(&["a", " ", "b c"]);
    assert_eq!(search_contains_indices(m.clone(), "  ".to_string(), 10), Vec::<u32>::new());
    assert_eq!(search_contains_indices(m, "".to_string(), 10), Vec::<u32>::new());
}

#[test]
fn search_zero_cap_acts_as_one() {
    let m = texts(&["x1", "x2", "x3"]);
    assert_eq!(search_contains_indices(m, "x".to_string(), 0), vec![0]);
}

#[test]
fn search_stops_at_cap() {
    let m = texts(&["ab", "b", "abc", "cab", "ba"]);
    assert_eq!(search_contains_indices(m, "ab".to_string(), 2), vec![0, 2]);
}

#[test]
fn search_terms_in_any_order() {
    let m = texts(&["ab cd", "cd ab", "xy"]);
    assert_eq!(search_contains_indices(m, "ab cd".to_string(), 10), vec![0, 1]);
}

#[test]
fn search_needs_every_term() {
    let m = texts(&["red apple", "green apple", "red car"]);
    assert_eq!(search_contains_indices(m, "apple red".to_string(), 10), vec![0]);
}

#[test]
fn search_empty_corpus() {
    assert_eq!(search_contains_indices(Vec::new(), "a".to_string(), 3), Vec::<u32>::new());
}

#[test]
fn search_length_within_cap() {
    let m = texts(&["a", "a", "a", "a"]);
    for limit in 0..6u32 {
        let r = search_contains_indices(m.clone(), "a".to_string(), limit);
        assert!(r.len() <= std::cmp::max(1, limit) as usize);
    }
}

#[test]
fn split_terms_on_whitespace_runs() {
    assert_eq!(split_terms("  ab \t cd\u{a0}ef  "), vec!["ab", "cd", "ef"]);
    assert_eq!(split_terms(""), Vec::<String>::new());
    assert_eq!(split_terms(" \n "), Vec::<String>::new());
    assert_eq!(split_terms("one"), vec!["one"]);
}

#[test]
fn contains_all_terms_tests_each_term() {
    let terms = vec!["lo w".to_string(), "he".to_string()];
    assert!(contains_all_terms("hello world", &terms));
    assert!(!contains_all_terms("hello", &terms));
    assert!(contains_all_terms("anything", &Vec::new()));
}
