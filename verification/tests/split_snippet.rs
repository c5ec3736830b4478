use gritql::split_snippet::{split_snippet, RegexMatch};
use std::ops::Range;

fn m(start: usize, end: usize, text: &str) -> RegexMatch {
    RegexMatch {
        start,
        end,
        text: text.to_string(),
    }
}

// The matches below are those that the JavaScript metavariable regexes find
// in each snippet.

#[test]
fn test_empty_snippet() {
    let result = split_snippet(&vec![], &vec![]);
    assert_eq!(result, Vec::<(Range<u32>, String)>::new());
}

#[test]
fn test_no_metavars() {
    // "This is a test snippet with no metavariables."
    let result = split_snippet(&vec![], &vec![]);
    assert_eq!(result, Vec::<(Range<u32>, String)>::new());
}

#[test]
fn test_single_metavar() {
    // "This is a $test snippet."
    let result = split_snippet(&vec![m(10, 15, "$test")], &vec![]);
    let expected = vec![(10..15, "$test".to_string())];
    assert_eq!(result, expected);
}

#[test]
fn test_multiple_metavars() {
    // "This is a $test snippet with $multiple $metavariables."
    let vars = vec![m(10, 15, "$test"), m(29, 38, "$multiple"), m(39, 53, "$metavariables")];
    let result = split_snippet(&vars, &vec![]);
    let expected = vec![
        (39..53, "$metavariables".to_string()),
        (29..38, "$multiple".to_string()),
        (10..15, "$test".to_string()),
    ];
    assert_eq!(result, expected);
}

#[test]
fn test_adjacent_metavars() {
    // "This is a $test$example snippet."
    let vars = vec![m(10, 15, "$test"), m(15, 23, "$example")];
    let result = split_snippet(&vars, &vec![]);
    let expected = vec![(15..23, "$example".to_string()), (10..15, "$test".to_string())];
    assert_eq!(result, expected);
}

#[test]
fn bracketed_metavariables_become_plain_names() {
    // "f($[args], $x)"
    let vars = vec![m(11, 13, "$x")];
    let curly = vec![m(2, 9, "$[args]")];
    let result = split_snippet(&vars, &curly);
    let expected = vec![(11..13, "$x".to_string()), (2..9, "$args".to_string())];
    assert_eq!(result, expected);
}

#[test]
fn equal_starts_keep_their_order() {
    let vars = vec![m(4, 6, "$a")];
    let curly = vec![m(4, 8, "$[ab]"), m(0, 4, "$[c]")];
    let result = split_snippet(&vars, &curly);
    let expected = vec![
        (4..6, "$a".to_string()),
        (4..8, "$ab".to_string()),
        (0..4, "$c".to_string()),
    ];
    assert_eq!(result, expected);
}
