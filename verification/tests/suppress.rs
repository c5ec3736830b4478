use gritql::suppress::{
    comment_applies_to_range, comment_occupies_entire_line, is_suppress_comment, CommentNode,
    FollowingNode, RowRange,
};

fn comment(text: &str, start_row: u32, end_row: u32) -> CommentNode {
    CommentNode {
        text: Some(text.to_string()),
        start_row,
        end_row,
    }
}

fn code(start_row: u32, text: &str) -> FollowingNode {
    FollowingNode {
        is_comment: false,
        text: Some(text.to_string()),
        start_row,
    }
}

fn rows(start_row: u32, end_row: u32) -> RowRange {
    RowRange { start_row, end_row }
}

#[test]
fn inline_bare_marker_suppresses_every_pattern() {
    let source = "console.log(x); // grit-ignore";
    let c = comment("// grit-ignore", 0, 0);
    assert!(is_suppress_comment(&c, source, rows(0, 0), &[], Some("no_console")));
    assert!(is_suppress_comment(&c, source, rows(0, 0), &[], None));
}

#[test]
fn named_suppression_only_applies_to_listed_patterns() {
    let source = "x; // grit-ignore no_console, no_debugger: legacy code";
    let c = comment("// grit-ignore no_console, no_debugger: legacy code", 0, 0);
    assert!(is_suppress_comment(&c, source, rows(0, 0), &[], Some("no_console")));
    assert!(is_suppress_comment(&c, source, rows(0, 0), &[], Some("no_debugger")));
    assert!(!is_suppress_comment(&c, source, rows(0, 0), &[], Some("other")));
    assert!(!is_suppress_comment(&c, source, rows(0, 0), &[], None));
}

#[test]
fn reason_without_names_suppresses_everything() {
    let c = comment("// grit-ignore: not worth it", 0, 0);
    assert!(is_suppress_comment(&c, "", rows(0, 0), &[], Some("any")));
    let c = comment("// grit-ignore-next-line", 0, 0);
    assert!(is_suppress_comment(&c, "", rows(0, 0), &[], Some("any")));
}

#[test]
fn comment_without_marker_or_text_does_not_suppress() {
    let c = comment("// just a comment", 0, 0);
    assert!(!is_suppress_comment(&c, "", rows(0, 0), &[], Some("any")));
    let c = CommentNode {
        text: None,
        start_row: 0,
        end_row: 0,
    };
    assert!(!is_suppress_comment(&c, "", rows(0, 0), &[], Some("any")));
}

#[test]
fn comment_on_the_line_before_suppresses() {
    let source = "// grit-ignore\nconsole.log(x);";
    let c = comment("// grit-ignore", 0, 0);
    let following = vec![code(1, "console.log(x);")];
    assert!(is_suppress_comment(&c, source, rows(1, 1), &following, Some("p")));
    // the next code starts on another row than the target
    assert!(!is_suppress_comment(&c, source, rows(2, 2), &following, Some("p")));
}

#[test]
fn trailing_comment_of_other_code_does_not_reach_the_next_line() {
    let source = "foo(); // grit-ignore\nconsole.log(x);";
    let c = comment("// grit-ignore", 0, 0);
    let following = vec![code(1, "console.log(x);")];
    assert!(!is_suppress_comment(&c, source, rows(1, 1), &following, Some("p")));
}

#[test]
fn comments_and_blank_nodes_between_are_skipped() {
    let following = vec![
        FollowingNode {
            is_comment: true,
            text: Some("// another".to_string()),
            start_row: 1,
        },
        code(2, "   "),
        code(3, "x()"),
        code(5, "y()"),
    ];
    assert!(comment_applies_to_range(&following, rows(3, 4)));
    assert!(!comment_applies_to_range(&following, rows(1, 4)));
    assert!(!comment_applies_to_range(&[], rows(0, 0)));
    // never past the last node
    let following = vec![FollowingNode {
        is_comment: true,
        text: None,
        start_row: 7,
    }];
    assert!(comment_applies_to_range(&following, rows(7, 7)));
}

#[test]
fn multi_line_comment_must_match_its_lines() {
    let source = "/* a\n   grit-ignore */\ncode();";
    assert!(comment_occupies_entire_line("/* a\n grit-ignore */", 0, 1, source));
    assert!(!comment_occupies_entire_line("/* a */", 0, 1, source));
    assert!(!comment_occupies_entire_line("/* a\n grit-ignore */", 5, 6, source));
    assert!(comment_occupies_entire_line("x\r", 0, 0, "x\r\ny"));
}
