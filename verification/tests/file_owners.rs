use gritql::errors::{debug, warning, AnalysisLog, DEBUG_LEVEL, WARNING_LEVEL};
use gritql::file_owners::{FileOwner, FileOwners};

fn owner(name: &str, tree: &str) -> FileOwner<String, Vec<u32>> {
    FileOwner::new(
        name.to_string(),
        format!("/repo/{}", name),
        tree.to_string(),
        vec![1, 2],
        false,
    )
}

#[test]
fn tree_is_taken_up_once_and_kept() {
    let mut file = owner("a.js", "(program)");
    assert!(file.parsed_tree.is_none());
    assert_eq!(file.tree(), "(program)");
    assert!(file.raw_tree.is_none());
    assert_eq!(file.parsed_tree.as_deref(), Some("(program)"));
    assert_eq!(file.tree(), "(program)");
    assert_eq!(file.name, "a.js");
    assert_eq!(file.absolute_path, "/repo/a.js");
    assert_eq!(file.matches, vec![1, 2]);
    assert!(!file.new);
}

#[test]
fn owners_compare_by_name() {
    let a = owner("a.js", "(one)");
    let b = owner("a.js", "(two)");
    let c = owner("b.js", "(one)");
    assert!(a.same_file(&b));
    assert!(!a.same_file(&c));
}

#[test]
fn owners_keep_insertion_order() {
    let mut files: FileOwners<String, Vec<u32>> = FileOwners::new();
    assert_eq!(files.len(), 0);
    files.push(owner("a.js", "(a)"));
    files.push(owner("b.js", "(b)"));
    assert_eq!(files.len(), 2);
    assert_eq!(files.get(0).name, "a.js");
    assert_eq!(files.get(1).name, "b.js");
    assert_eq!(files.get_mut(1).tree(), "(b)");
    assert!(files.get(1).parsed_tree.is_some());
    let empty: FileOwners<String, Vec<u32>> = FileOwners::default();
    assert_eq!(empty.len(), 0);
}

#[test]
fn debug_and_warning_append_entries() {
    let mut logs: Vec<AnalysisLog> = Vec::new();
    debug(&mut logs, Some("a.js".to_string()), "first");
    warning(&mut logs, None, "second");
    assert_eq!(logs.len(), 2);
    assert_eq!(logs[0].level, DEBUG_LEVEL);
    assert_eq!(logs[0].level, 501);
    assert_eq!(logs[0].message, "first");
    assert_eq!(logs[0].file.as_deref(), Some("a.js"));
    assert_eq!(logs[1].level, WARNING_LEVEL);
    assert_eq!(logs[1].level, 301);
    assert_eq!(logs[1].message, "second");
    assert!(logs[1].file.is_none());
}
