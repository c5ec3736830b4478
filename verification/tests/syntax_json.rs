use gritql::node_builder::FieldInfo;
use gritql::syntax_json::{json_convertible, tree_sitter_node_to_json, JsonValue, Position, SyntaxChildNode, SyntaxNode};

fn field(id: u16, name: &str, multiple: bool) -> FieldInfo {
    FieldInfo {
        id,
        name: name.to_string(),
        multiple,
    }
}

fn pos(row: u32, column: u32) -> Position {
    Position { row, column }
}

fn leaf(kind: &str, kind_id: u16, start: u32, end: u32) -> SyntaxNode {
    SyntaxNode {
        kind: kind.to_string(),
        kind_id,
        is_error: false,
        start_byte: start,
        end_byte: end,
        start_position: pos(0, start),
        end_position: pos(0, end),
        children: vec![],
    }
}

fn child(field_id: Option<u16>, node: SyntaxNode) -> SyntaxChildNode {
    SyntaxChildNode { field_id, node }
}

fn get<'a>(v: &'a JsonValue, key: &str) -> Option<&'a JsonValue> {
    match v {
        JsonValue::Object(entries) => entries.iter().find(|(k, _)| k == key).map(|(_, v)| v),
        _ => None,
    }
}

fn text(v: &JsonValue) -> &str {
    match v {
        JsonValue::String(s) => s.as_str(),
        other => panic!("not a string: {:?}", other),
    }
}

fn num(v: &JsonValue) -> u64 {
    match v {
        JsonValue::Number(n) => *n,
        other => panic!("not a number: {:?}", other),
    }
}

fn items(v: &JsonValue) -> &Vec<JsonValue> {
    match v {
        JsonValue::Array(a) => a,
        other => panic!("not an array: {:?}", other),
    }
}

fn keys(v: &JsonValue) -> Vec<String> {
    match v {
        JsonValue::Object(entries) => entries.iter().map(|(k, _)| k.clone()).collect(),
        other => panic!("not an object: {:?}", other),
    }
}

// kind ids: 0 identifier (no fields), 1 call (function, arguments), 2 number
fn node_types() -> Vec<Vec<FieldInfo>> {
    vec![
        vec![],
        vec![field(10, "function", false), field(11, "arguments", true)],
        vec![],
    ]
}

#[test]
fn leaf_node_has_sort_range_and_text() {
    let source = "let foo = 1;";
    let node = SyntaxNode {
        kind: "identifier".to_string(),
        kind_id: 0,
        is_error: false,
        start_byte: 4,
        end_byte: 7,
        start_position: pos(2, 4),
        end_position: pos(2, 7),
        children: vec![],
    };
    let json = tree_sitter_node_to_json(&node, source, &node_types());
    assert_eq!(keys(&json), vec!["SORT", "RANGE", "TEXT"]);
    assert_eq!(text(get(&json, "SORT").unwrap()), "identifier");
    assert_eq!(text(get(&json, "TEXT").unwrap()), "foo");
    let range = get(&json, "RANGE").unwrap();
    let start = get(range, "start").unwrap();
    let end = get(range, "end").unwrap();
    assert_eq!(num(get(start, "line").unwrap()), 3);
    assert_eq!(num(get(start, "column").unwrap()), 5);
    assert_eq!(num(get(end, "line").unwrap()), 3);
    assert_eq!(num(get(end, "column").unwrap()), 8);
}

#[test]
fn fields_and_unnamed_children() {
    let source = "f(1, 2)";
    let node = SyntaxNode {
        kind: "call".to_string(),
        kind_id: 1,
        is_error: false,
        start_byte: 0,
        end_byte: 7,
        start_position: pos(0, 0),
        end_position: pos(0, 7),
        children: vec![
            child(Some(10), leaf("identifier", 0, 0, 1)),
            child(None, leaf("(", 0, 1, 2)),
            child(Some(11), leaf("number", 2, 2, 3)),
            child(Some(11), leaf("number", 2, 5, 6)),
            child(None, leaf(")", 0, 6, 7)),
        ],
    };
    let json = tree_sitter_node_to_json(&node, source, &node_types());
    assert_eq!(keys(&json), vec!["SORT", "RANGE", "function", "arguments", "CHILDREN"]);
    assert!(get(&json, "TEXT").is_none());
    let function = get(&json, "function").unwrap();
    assert_eq!(text(get(function, "TEXT").unwrap()), "f");
    let args = items(get(&json, "arguments").unwrap());
    assert_eq!(args.len(), 2);
    assert_eq!(text(get(&args[0], "TEXT").unwrap()), "1");
    assert_eq!(text(get(&args[1], "TEXT").unwrap()), "2");
    let rest = items(get(&json, "CHILDREN").unwrap());
    assert_eq!(rest.len(), 2);
    assert_eq!(text(get(&rest[0], "TEXT").unwrap()), "(");
    assert_eq!(text(get(&rest[1], "TEXT").unwrap()), ")");
}

#[test]
fn field_without_children_is_left_out() {
    let source = "f()";
    let node = SyntaxNode {
        kind: "call".to_string(),
        kind_id: 1,
        is_error: false,
        start_byte: 0,
        end_byte: 3,
        start_position: pos(0, 0),
        end_position: pos(0, 3),
        children: vec![child(Some(10), leaf("identifier", 0, 0, 1))],
    };
    let json = tree_sitter_node_to_json(&node, source, &node_types());
    assert_eq!(keys(&json), vec!["SORT", "RANGE", "function"]);
}

#[test]
fn error_node_keeps_all_children_unnamed() {
    let source = "f(1";
    let node = SyntaxNode {
        kind: "ERROR".to_string(),
        kind_id: 1,
        is_error: true,
        start_byte: 0,
        end_byte: 3,
        start_position: pos(0, 0),
        end_position: pos(0, 3),
        children: vec![
            child(Some(10), leaf("identifier", 0, 0, 1)),
            child(Some(11), leaf("number", 2, 2, 3)),
        ],
    };
    let json = tree_sitter_node_to_json(&node, source, &node_types());
    assert_eq!(keys(&json), vec!["SORT", "RANGE", "TEXT", "CHILDREN"]);
    assert_eq!(text(get(&json, "TEXT").unwrap()), "f(1");
    let rest = items(get(&json, "CHILDREN").unwrap());
    assert_eq!(rest.len(), 2);
    assert_eq!(text(get(&rest[1], "TEXT").unwrap()), "1");
}

#[test]
fn multibyte_text_is_cut_by_bytes() {
    let source = "é = ü";
    let node = leaf("identifier", 0, 5, 7);
    let json = tree_sitter_node_to_json(&node, source, &node_types());
    assert_eq!(text(get(&json, "TEXT").unwrap()), "ü");
    let node = leaf("identifier", 0, 0, 2);
    let json = tree_sitter_node_to_json(&node, source, &node_types());
    assert_eq!(text(get(&json, "TEXT").unwrap()), "é");
}

#[test]
fn convertible_trees_are_recognised() {
    let source = "f(1, 2)";
    let call = |children: Vec<SyntaxChildNode>| SyntaxNode {
        kind: "call".to_string(),
        kind_id: 1,
        is_error: false,
        start_byte: 0,
        end_byte: 7,
        start_position: pos(0, 0),
        end_position: pos(0, 7),
        children,
    };
    let good = call(vec![
        child(Some(10), leaf("identifier", 0, 0, 1)),
        child(Some(11), leaf("number", 2, 2, 3)),
        child(Some(11), leaf("number", 2, 5, 6)),
    ]);
    assert!(json_convertible(&good, source, &node_types()));
    let two_functions = call(vec![
        child(Some(10), leaf("identifier", 0, 0, 1)),
        child(Some(10), leaf("identifier", 0, 2, 3)),
    ]);
    assert!(!json_convertible(&two_functions, source, &node_types()));
    let unknown_kind = leaf("mystery", 7, 0, 1);
    assert!(!json_convertible(&unknown_kind, source, &node_types()));
    let out_of_range = leaf("identifier", 0, 5, 9);
    assert!(!json_convertible(&out_of_range, source, &node_types()));
    let bad_child = call(vec![child(None, leaf("identifier", 0, 6, 8))]);
    assert!(!json_convertible(&bad_child, source, &node_types()));
    let mut error = leaf("ERROR", 7, 0, 3);
    error.is_error = true;
    assert!(json_convertible(&error, source, &node_types()));
}

#[test]
fn cut_inside_a_character_is_not_convertible() {
    let source = "é = ü";
    let node = leaf("identifier", 0, 1, 2);
    assert!(!json_convertible(&node, source, &node_types()));
    let node = leaf("identifier", 0, 0, 2);
    assert!(json_convertible(&node, source, &node_types()));
}

#[test]
fn empty_text_inside_a_character_is_converted() {
    let source = "é";
    let node = leaf("identifier", 0, 1, 1);
    assert!(json_convertible(&node, source, &node_types()));
    let json = tree_sitter_node_to_json(&node, source, &node_types());
    assert_eq!(text(get(&json, "TEXT").unwrap()), "");
    let past_end = leaf("identifier", 0, 3, 3);
    assert!(!json_convertible(&past_end, source, &node_types()));
}
