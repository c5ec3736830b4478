use gritql::smart_insert::{
    adjust_separator_end, adjust_separator_start, calculate_padding, get_insertion_padding,
    PaddingBinding, SyntaxChild,
};

#[test]
fn test_adjust_separator_start() {
    assert_eq!(adjust_separator_start(", ", ","), " ");
    assert_eq!(adjust_separator_start("\n", ""), "\n");
    assert_eq!(adjust_separator_start("abcdef", "xyzabc"), "def");
    assert_eq!(adjust_separator_start("\n\nabcdef", "xyzabc\n"), "\nabcdef");
}

#[test]
fn test_adjust_separator_end() {
    assert_eq!(adjust_separator_end("Hello, ", ", World"), "Hello");
    assert_eq!(adjust_separator_end("\n", ""), "\n");
    assert_eq!(adjust_separator_end("\n", "\n"), "");
}

#[test]
fn adjust_takes_the_shortest_overlap() {
    // both "a" and "aba" overlap; the shortest one is dropped
    assert_eq!(adjust_separator_end("xaba", "aba"), "xab");
    assert_eq!(adjust_separator_start("abax", "aba"), "bax");
    assert_eq!(adjust_separator_end(", ", "x"), ", ");
}

fn child(is_named: bool, start: u32, end: u32) -> SyntaxChild {
    SyntaxChild {
        is_named,
        start_byte: start,
        end_byte: end,
        start_row: 0,
        end_row: 0,
    }
}

#[test]
fn padding_of_comma_separated_arguments() {
    let source = "f(a, b, c)";
    let children = vec![child(true, 2, 3), child(true, 5, 6), child(true, 8, 9)];
    assert_eq!(
        calculate_padding(&children, source, "d", false, false),
        Some(", ".to_string())
    );
    assert_eq!(
        calculate_padding(&children, source, "d", true, false),
        Some(", ".to_string())
    );
    // inserted text that starts with the separator's tail takes it over
    assert_eq!(
        calculate_padding(&children, source, " d", false, false),
        Some(",".to_string())
    );
}

#[test]
fn padding_drops_what_trailing_text_brings() {
    let source = "[a, b,]";
    let children = vec![
        child(true, 1, 2),
        child(false, 2, 3),
        child(true, 4, 5),
        child(false, 5, 6),
    ];
    assert_eq!(
        calculate_padding(&children, source, "c", true, false),
        Some(" ".to_string())
    );
    assert_eq!(
        calculate_padding(&children, source, "c", false, false),
        Some(", ".to_string())
    );
}

#[test]
fn padding_of_statements_with_significant_whitespace() {
    let source = "a;\n  b;";
    let children = vec![child(true, 0, 2), child(true, 5, 7)];
    assert_eq!(
        calculate_padding(&children, source, "c;", false, true),
        Some("\n".to_string())
    );
    assert_eq!(
        calculate_padding(&children, source, "c;", false, false),
        Some("\n  ".to_string())
    );
}

#[test]
fn no_padding_when_children_touch_or_disagree() {
    let source = "ab";
    let children = vec![child(true, 0, 1), child(true, 1, 2)];
    assert_eq!(calculate_padding(&children, source, "c", false, false), None);
    let source = "a, b; c";
    let children = vec![child(true, 0, 1), child(true, 3, 4), child(true, 6, 7)];
    assert_eq!(calculate_padding(&children, source, "d", false, false), None);
}

#[test]
fn separators_containing_each_other_settle_on_the_shorter() {
    let source = "a, b,  c";
    let children = vec![child(true, 0, 1), child(true, 3, 4), child(true, 7, 8)];
    assert_eq!(
        calculate_padding(&children, source, "d", false, false),
        Some(", ".to_string())
    );
    let source = "a,  b, c";
    let children = vec![child(true, 0, 1), child(true, 4, 5), child(true, 7, 8)];
    assert_eq!(
        calculate_padding(&children, source, "d", false, false),
        Some(", ".to_string())
    );
}

#[test]
fn single_named_child_uses_the_text_after_it() {
    let source = "x;\n";
    let children = vec![child(true, 0, 1), child(false, 1, 3)];
    assert_eq!(
        calculate_padding(&children, source, "y", false, false),
        Some(";\n".to_string())
    );
    let children = vec![child(true, 0, 1)];
    assert_eq!(calculate_padding(&children, source, "y", false, false), None);
}

#[test]
fn insertion_padding_for_a_statement_node() {
    let source = "foo();";
    let node = child(true, 0, 6);
    let binding = PaddingBinding::Node(node, true);
    assert_eq!(
        get_insertion_padding(&binding, source, "bar();", false, false),
        Some("\n".to_string())
    );
    assert_eq!(get_insertion_padding(&binding, source, "\nbar();", false, false), None);
    let binding = PaddingBinding::Node(node, false);
    assert_eq!(get_insertion_padding(&binding, source, "bar();", false, false), None);
    let source = "foo();\n";
    let binding = PaddingBinding::Node(child(true, 0, 7), true);
    assert_eq!(get_insertion_padding(&binding, source, "bar();", false, false), None);
}

#[test]
fn insertion_padding_for_lists() {
    let source = "{\n  a\n}";
    let lone = SyntaxChild {
        is_named: true,
        start_byte: 0,
        end_byte: 7,
        start_row: 0,
        end_row: 2,
    };
    let binding = PaddingBinding::List(vec![lone]);
    assert_eq!(
        get_insertion_padding(&binding, source, "b", false, false),
        Some("\n".to_string())
    );
    assert_eq!(get_insertion_padding(&binding, source, "\nb", false, false), None);
    let binding = PaddingBinding::List(vec![]);
    assert_eq!(get_insertion_padding(&binding, source, "b", false, false), None);
    assert_eq!(
        get_insertion_padding(&PaddingBinding::Other, source, "b", false, false),
        None
    );
    let source = "f(a, b)";
    let binding = PaddingBinding::List(vec![child(true, 2, 3), child(true, 5, 6)]);
    assert_eq!(
        get_insertion_padding(&binding, source, "c", false, false),
        Some(", ".to_string())
    );
}

#[test]
fn padding_works_on_multibyte_text() {
    let source = "é · ü · ö";
    // "é" 0..2, " · " 2..6, "ü" 6..8, " · " 8..12, "ö" 12..14
    let children = vec![child(true, 0, 2), child(true, 6, 8), child(true, 12, 14)];
    assert_eq!(
        calculate_padding(&children, source, "x", false, false),
        Some(" · ".to_string())
    );
}
