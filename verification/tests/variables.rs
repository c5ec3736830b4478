use gritql::variables::{
    get_variables, register_variable, register_variable_optional_range, variable_from_name,
    ByteRange, FileLocation, NameMap, Variable, VariableScopes, VariableSourceLocations,
    GLOBAL_VARS_SCOPE_INDEX,
};

fn record(name: &str) -> VariableSourceLocations {
    VariableSourceLocations {
        name: name.to_string(),
        file: "PlaygroundPattern".to_string(),
        locations: vec![],
    }
}

fn scopes(file: &str) -> VariableScopes {
    let mut vars = NameMap::new();
    vars.insert("$x".to_string(), 1);
    let mut global_vars = NameMap::new();
    global_vars.insert("$GLOBAL_a".to_string(), 0);
    VariableScopes {
        vars,
        vars_array: vec![vec![record("$GLOBAL_a")], vec![record("$w"), record("$x")]],
        global_vars,
        scope_index: 1,
        file: file.to_string(),
    }
}

fn range(start: usize, end: usize) -> ByteRange {
    ByteRange { start, end }
}

#[test]
fn local_name_resolves_in_current_scope_and_records_occurrence() {
    let mut ctx = scopes("PlaygroundPattern");
    let v = register_variable("$x", range(3, 5), &mut ctx);
    assert_eq!(v, Variable::new(1, 1));
    assert_eq!(ctx.vars_array[1][1].locations, vec![range(3, 5)]);
    // the same occurrence is recorded once
    let v = register_variable("$x", range(3, 5), &mut ctx);
    assert_eq!(v, Variable::new(1, 1));
    assert_eq!(ctx.vars_array[1][1].locations, vec![range(3, 5)]);
    assert_eq!(variable_from_name("$x", &mut ctx), Variable::new(1, 1));
}

#[test]
fn global_occurrences_are_recorded_only_in_the_default_file() {
    let mut ctx = scopes("PlaygroundPattern");
    let v = register_variable("$GLOBAL_a", range(0, 9), &mut ctx);
    assert_eq!(v, Variable::new(GLOBAL_VARS_SCOPE_INDEX, 0));
    assert_eq!(ctx.vars_array[0][0].locations, vec![range(0, 9)]);

    let mut ctx = scopes("other.grit");
    let v = register_variable("$GLOBAL_a", range(0, 9), &mut ctx);
    assert_eq!(v, Variable::new(0, 0));
    assert!(ctx.vars_array[0][0].locations.is_empty());
}

#[test]
fn new_global_joins_the_global_scope() {
    let mut ctx = scopes("lib.grit");
    let v = register_variable("$GLOBAL_new", range(4, 15), &mut ctx);
    assert_eq!(v, Variable::new(0, 1));
    assert_eq!(ctx.vars_array[0].len(), 2);
    assert_eq!(ctx.vars_array[0][1].name, "$GLOBAL_new");
    assert_eq!(ctx.vars_array[0][1].file, "lib.grit");
    assert_eq!(ctx.vars_array[0][1].locations, vec![range(4, 15)]);
    assert_eq!(ctx.global_vars.get("$GLOBAL_new"), Some(1));
    // registering it again finds it
    assert_eq!(variable_from_name("$GLOBAL_new", &mut ctx), Variable::new(0, 1));

    let v = variable_from_name("^GLOBAL_caret", &mut ctx);
    assert_eq!(v, Variable::new(0, 2));
    assert_eq!(ctx.vars_array[0][2].file, "PlaygroundPattern");
    assert!(ctx.vars_array[0][2].locations.is_empty());
}

#[test]
fn new_local_name_gets_a_fresh_record_each_time() {
    let mut ctx = scopes("PlaygroundPattern");
    let v = register_variable("$y", range(1, 3), &mut ctx);
    assert_eq!(v, Variable::new(1, 2));
    assert_eq!(ctx.vars_array[1][2].name, "$y");
    assert!(ctx.vars_array[1][2].locations.is_empty());
    assert_eq!(ctx.vars.get("$y"), None);
    let again = register_variable("$y", range(1, 3), &mut ctx);
    assert_eq!(again, Variable::new(1, 3));
}

#[test]
fn without_location_nothing_is_recorded() {
    let mut ctx = scopes("PlaygroundPattern");
    let loc = FileLocation {
        file_name: "PlaygroundPattern".to_string(),
        range: range(7, 8),
    };
    assert_eq!(
        register_variable_optional_range("$x", Some(loc), &mut ctx),
        Variable::new(1, 1)
    );
    assert_eq!(
        register_variable_optional_range("$w", None, &mut ctx),
        Variable::new(1, 2)
    );
    assert_eq!(ctx.vars_array[1][1].locations, vec![range(7, 8)]);
}

#[test]
fn parameters_are_registered_in_order() {
    let mut ctx = scopes("PlaygroundPattern");
    let params = vec![
        ("$x".to_string(), range(0, 2)),
        ("$GLOBAL_b".to_string(), range(3, 12)),
        ("$z".to_string(), range(13, 15)),
    ];
    let vars = get_variables(&params, &mut ctx);
    assert_eq!(
        vars,
        vec![
            ("$x".to_string(), Variable::new(1, 1)),
            ("$GLOBAL_b".to_string(), Variable::new(0, 1)),
            ("$z".to_string(), Variable::new(1, 2)),
        ]
    );
}

#[test]
fn occurrences_are_kept_in_range_order() {
    let mut ctx = scopes("PlaygroundPattern");
    register_variable("$x", range(20, 22), &mut ctx);
    register_variable("$x", range(3, 5), &mut ctx);
    register_variable("$x", range(3, 4), &mut ctx);
    register_variable("$x", range(10, 12), &mut ctx);
    register_variable("$x", range(3, 5), &mut ctx);
    assert_eq!(
        ctx.vars_array[1][1].locations,
        vec![range(3, 4), range(3, 5), range(10, 12), range(20, 22)]
    );
}

#[test]
fn add_location_inserts_in_order() {
    let mut rec = record("$y");
    rec.add_location(range(7, 9));
    rec.add_location(range(1, 2));
    rec.add_location(range(7, 8));
    rec.add_location(range(1, 2));
    assert_eq!(rec.locations, vec![range(1, 2), range(7, 8), range(7, 9)]);
}
