use gritql::node_builder::{join_strings, AstNodePattern, FieldInfo, Grammar, NodeError, COMMENT_CONTENT_FIELD_ID};
use gritql::patterns::{FuncEvaluation, Not, NotError, PrNot};
use gritql::sdk::{StatelessCompilerContext, StatelessError, UncompiledPattern, UncompiledPatternBuilder};

fn field(id: u16, name: &str, multiple: bool) -> FieldInfo {
    FieldInfo {
        id,
        name: name.to_string(),
        multiple,
    }
}

fn grammar() -> Grammar {
    Grammar {
        node_kinds: vec![
            ("call_expression".to_string(), 1),
            ("comment".to_string(), 2),
            ("identifier".to_string(), 3),
        ],
        field_ids: vec![
            ("function".to_string(), 10),
            ("arguments".to_string(), 11),
            ("body".to_string(), 12),
        ],
        node_types: vec![
            vec![],
            vec![field(10, "function", false), field(11, "arguments", true)],
            vec![],
            vec![],
        ],
        comment_sorts: vec![2],
    }
}

fn fields(names: &[&str]) -> Vec<(String, u32)> {
    names
        .iter()
        .enumerate()
        .map(|(i, n)| (n.to_string(), i as u32))
        .collect()
}

#[test]
fn builds_a_node_with_its_fields_in_order() {
    let ctx = StatelessCompilerContext::new(grammar());
    let node: AstNodePattern<u32> = ctx
        .node("call_expression", fields(&["arguments", "function"]))
        .unwrap();
    assert_eq!(node.sort, 1);
    assert_eq!(node.args, vec![(11, true, 0), (10, false, 1)]);
}

#[test]
fn unknown_kind_is_refused() {
    let ctx = StatelessCompilerContext::new(grammar());
    match ctx.node("nope", fields(&[])) {
        Err(NodeError::InvalidNodeType { name }) => assert_eq!(name, "nope"),
        other => panic!("unexpected {:?}", other),
    }
}

#[test]
fn unknown_field_lists_the_valid_ones() {
    let ctx = StatelessCompilerContext::new(grammar());
    match ctx.node("call_expression", fields(&["function", "callee"])) {
        Err(NodeError::InvalidField {
            field,
            node,
            valid_fields,
        }) => {
            assert_eq!(field, "callee");
            assert_eq!(node, "call_expression");
            assert_eq!(valid_fields, vec!["function".to_string(), "arguments".to_string()]);
        }
        other => panic!("unexpected {:?}", other),
    }
    match ctx.node("identifier", fields(&["function"])) {
        Err(NodeError::FieldNotFound { field, node }) => {
            assert_eq!(field, "function");
            assert_eq!(node, "identifier");
        }
        other => panic!("unexpected {:?}", other),
    }
    match ctx.node("identifier", fields(&["callee"])) {
        Err(NodeError::InvalidField { valid_fields, .. }) => assert!(valid_fields.is_empty()),
        other => panic!("unexpected {:?}", other),
    }
}

#[test]
fn a_field_given_twice_is_refused() {
    let ctx = StatelessCompilerContext::new(grammar());
    assert!(matches!(
        ctx.node("call_expression", fields(&["function", "function"])),
        Err(NodeError::DuplicateField)
    ));
}

#[test]
fn comment_nodes_take_only_their_content() {
    let ctx = StatelessCompilerContext::new(grammar());
    let node = ctx.node("comment", fields(&["content"])).unwrap();
    assert_eq!(node.sort, 2);
    assert_eq!(node.args, vec![(COMMENT_CONTENT_FIELD_ID, false, 0)]);
    let node = ctx.node("comment", fields(&["other"])).unwrap();
    assert!(node.args.is_empty());
    assert!(matches!(
        ctx.node("comment", fields(&["content", "other"])),
        Err(NodeError::CommentTooManyFields)
    ));
}

#[test]
fn stateless_variables_are_dynamic_but_not_global() {
    let mut ctx = StatelessCompilerContext::new(grammar());
    assert_eq!(ctx.register_variable("$name").unwrap().name, "$name");
    assert_eq!(
        ctx.register_variable("$GLOBAL_x").unwrap_err(),
        StatelessError::GlobalVariablesUnsupported
    );
    assert_eq!(ctx.register_variable("^GLOBAL_x").unwrap().name, "^GLOBAL_x");
}

#[test]
fn snippet_builder_holds_the_snippet() {
    let b = UncompiledPatternBuilder::new_snippet("console.log($x)".to_string());
    match b.pattern {
        UncompiledPattern::Snippet { text } => assert_eq!(text, "console.log($x)"),
        other => panic!("unexpected {:?}", other),
    }
}

#[test]
fn not_negates() {
    let n = Not::new(7u8);
    assert_eq!(n.pattern, 7);
    assert!(Not::<u8>::outcome(false));
    assert!(!Not::<u8>::outcome(true));
    let e = PrNot::<u8>::evaluation(FuncEvaluation::<u8> {
        predicator: true,
        ret_val: None,
    })
    .unwrap();
    assert!(!e.predicator);
    assert!(e.ret_val.is_none());
    let err = PrNot::<u8>::evaluation(FuncEvaluation {
        predicator: true,
        ret_val: Some(3u8),
    })
    .unwrap_err();
    assert_eq!(err, NotError::ReturnWithinNot);
    assert_eq!(PrNot::new("p").predicate, "p");
}

#[test]
fn node_errors_read_as_messages() {
    let ctx = StatelessCompilerContext::new(grammar());
    let e = ctx.node("nope", fields(&[])).unwrap_err();
    assert_eq!(e.message(), "invalid node type: nope");
    let e = ctx
        .node("call_expression", fields(&["function", "callee"]))
        .unwrap_err();
    assert_eq!(
        e.message(),
        "invalid field `callee` for AST node `call_expression`, valid fields are: function, arguments"
    );
    let e = ctx.node("identifier", fields(&["callee"])).unwrap_err();
    assert_eq!(
        e.message(),
        "invalid field `callee` for AST node `identifier`. `identifier` does not expose any fields."
    );
    let e = ctx.node("identifier", fields(&["function"])).unwrap_err();
    assert_eq!(e.message(), "field function not found in node type identifier");
    let e = ctx
        .node("call_expression", fields(&["function", "function"]))
        .unwrap_err();
    assert_eq!(e.message(), "duplicate field in node");
    let e = ctx
        .node("comment", fields(&["content", "other"]))
        .unwrap_err();
    assert_eq!(e.message(), "comment node cannot have more than one field");
}

#[test]
fn stateless_errors_read_as_messages() {
    let mut ctx = StatelessCompilerContext::new(grammar());
    let e = ctx.register_match_variable().unwrap_err();
    assert_eq!(e, StatelessError::MatchVariableUnsupported);
    assert_eq!(
        e.message(),
        "The $match variable is not supported in the stateless SDK"
    );
    assert_eq!(
        StatelessError::GlobalVariablesUnsupported.message(),
        "Global variables are not supported in stateless mode"
    );
}

#[test]
fn join_puts_the_separator_between() {
    let parts = vec!["a".to_string(), "b".to_string(), "c".to_string()];
    assert_eq!(join_strings(&parts, ", "), "a, b, c");
    assert_eq!(join_strings(&vec!["x".to_string()], ", "), "x");
    assert_eq!(join_strings(&Vec::new(), ", "), "");
}
