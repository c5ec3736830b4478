use gritql::rules::{graphql_url, rules_from_projects, AutoReviewRule, PatternLevel, RuleProject, RulesError};
use gritql::test_utils::{SyntheticFile, TestCase};

fn rule(id: &str) -> AutoReviewRule {
    AutoReviewRule {
        id: id.to_string(),
        title: format!("title {}", id),
        description: String::new(),
        level: "warn".to_string(),
        created_at: "2024-01-01".to_string(),
    }
}

#[test]
fn level_names_parse() {
    assert_eq!(PatternLevel::parse("none").unwrap(), PatternLevel::Off);
    assert_eq!(PatternLevel::parse("warn").unwrap(), PatternLevel::Warn);
    assert_eq!(PatternLevel::parse("error").unwrap(), PatternLevel::Error);
    let level: PatternLevel = "warn".parse().unwrap();
    assert_eq!(level, PatternLevel::Warn);
}

#[test]
fn unknown_level_is_rejected_with_its_name() {
    let err = PatternLevel::parse("Error").unwrap_err();
    assert_eq!(err.given, "Error");
    assert_eq!(err.message(), "'Error' is not a valid level");
    assert!(PatternLevel::parse("").is_err());
}

#[test]
fn level_numbers() {
    assert_eq!(PatternLevel::Off.number(), 0);
    assert_eq!(PatternLevel::Warn.number(), 2);
    assert_eq!(PatternLevel::Error.number(), 3);
}

#[test]
fn first_project_rules_are_taken() {
    let projects = vec![
        RuleProject { review_rules: vec![rule("a"), rule("b")] },
        RuleProject { review_rules: vec![rule("c")] },
    ];
    let rules = rules_from_projects(projects).unwrap();
    let ids: Vec<String> = rules.iter().map(|r| r.id.clone()).collect();
    assert_eq!(ids, vec!["a".to_string(), "b".to_string()]);
}

#[test]
fn no_project_is_an_error() {
    assert_eq!(rules_from_projects(vec![]).unwrap_err(), RulesError::NoProjectFound);
}

#[test]
fn graphql_endpoint() {
    assert_eq!(graphql_url("https://api.grit.io"), "https://api.grit.io/graphql");
    assert_eq!(graphql_url(""), "/graphql");
}

#[test]
fn test_case_has_one_readable_target_file() {
    let case = TestCase::new("console.log(1)", "`console.log($x)`");
    assert_eq!(case.files.len(), 1);
    assert_eq!(case.files[0].path, "target.js");
    assert_eq!(case.files[0].content, "console.log(1)");
    assert!(case.files[0].can_read);
    assert_eq!(case.pattern, "`console.log($x)`");
}

#[test]
fn synthetic_file_keeps_its_fields() {
    let f = SyntheticFile::new("a/b.js".to_string(), "x".to_string(), false);
    assert_eq!(f.name(), "a/b.js");
    assert_eq!(f.content, "x");
    assert!(!f.can_read);
}
