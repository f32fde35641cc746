use declarative_dataflow::binding::Binding;
use declarative_dataflow::context::{AttributeTraces, InMemoryContext, VariableMap};
use declarative_dataflow::plan::{CompileError, Join, Plan, Project, Union};
use declarative_dataflow::relation::Implemented;
use declarative_dataflow::value::Value;
use declarative_dataflow::shutdown::{ShutdownButton, ShutdownHandle};
use declarative_dataflow::{gensym, next_id, Generators};

fn traces(pairs: Vec<(u64, Value)>) -> AttributeTraces {
    let forward: Vec<((Value, Value), u64, isize)> = pairs
        .iter()
        .map(|(e, v)| ((Value::Eid(*e), v.clone()), 0u64, 1isize))
        .collect();
    let reverse: Vec<((Value, Value), u64, isize)> = pairs
        .iter()
        .map(|(e, v)| ((v.clone(), Value::Eid(*e)), 0u64, 1isize))
        .collect();
    AttributeTraces {
        forward_count: Vec::new(),
        forward_propose: forward.clone(),
        forward_validate: forward,
        reverse_count: Vec::new(),
        reverse_propose: reverse.clone(),
        reverse_validate: reverse,
    }
}

fn context_with(attrs: Vec<(&str, Vec<(u64, Value)>)>) -> InMemoryContext {
    let mut context = InMemoryContext::new();
    for (name, pairs) in attrs {
        context.add_attribute(name.to_string(), traces(pairs));
    }
    context
}

fn rows_of(imp: Implemented) -> Vec<(Vec<Value>, u64, isize)> {
    match imp {
        Implemented::Collection(rel) => rel.tuples,
        Implemented::Attribute(_) => panic!("expected a materialised collection"),
    }
}

#[test]
fn match_a_round_trip() {
    let context = context_with(vec![(
        "parent",
        vec![(1, Value::Eid(2)), (1, Value::Eid(3)), (2, Value::Eid(4))],
    )]);
    let local = VariableMap::new();
    let plan = Plan::Project(Project {
        variables: vec![0, 1],
        plan: Box::new(Plan::MatchA(0, "parent".to_string(), 1)),
    });
    let (imp, _handle) = plan.implement(&local, &context).unwrap();
    let rows = rows_of(imp);
    assert_eq!(
        rows,
        vec![
            (vec![Value::Eid(1), Value::Eid(2)], 0, 1),
            (vec![Value::Eid(1), Value::Eid(3)], 0, 1),
            (vec![Value::Eid(2), Value::Eid(4)], 0, 1),
        ]
    );
}

#[test]
fn match_a_stays_an_attribute_binding() {
    let context = context_with(vec![("parent", vec![(1, Value::Eid(2))])]);
    let local = VariableMap::new();
    let plan = Plan::MatchA(0, "parent".to_string(), 1);
    let (imp, handle) = plan.implement(&local, &context).unwrap();
    match imp {
        Implemented::Attribute(ab) => {
            assert_eq!(ab.variables, (0, 1));
            assert_eq!(ab.source_attribute, "parent");
        }
        Implemented::Collection(_) => panic!("a bare pattern must stay an attribute binding"),
    }
    assert!(handle.buttons.is_empty());
}

#[test]
fn equijoin_of_two_attributes() {
    let context = context_with(vec![
        ("parent", vec![(1, Value::Eid(2)), (2, Value::Eid(3))]),
        (
            "name",
            vec![
                (1, Value::String("a".to_string())),
                (2, Value::String("b".to_string())),
                (3, Value::String("c".to_string())),
            ],
        ),
    ]);
    let local = VariableMap::new();
    let plan = Plan::Join(Join {
        variables: vec![0],
        left_plan: Box::new(Plan::MatchA(0, "parent".to_string(), 1)),
        right_plan: Box::new(Plan::MatchA(0, "name".to_string(), 2)),
    });
    let (imp, handle) = plan.implement(&local, &context).unwrap();
    let rows = rows_of(imp);
    assert_eq!(
        rows,
        vec![
            (
                vec![Value::Eid(1), Value::Eid(2), Value::String("a".to_string())],
                0,
                1
            ),
            (
                vec![Value::Eid(2), Value::Eid(3), Value::String("b".to_string())],
                0,
                1
            ),
        ]
    );
    // one shutdown button per imported propose trace
    assert_eq!(handle.buttons.len(), 2);
}

#[test]
fn union_applies_set_semantics() {
    let red = || Value::String("red".to_string());
    let context = context_with(vec![("color", vec![(1, red()), (2, red())])]);
    let local = VariableMap::new();
    let plan = Plan::Union(Union {
        variables: vec![0],
        plans: vec![
            Plan::MatchAV(0, "color".to_string(), red()),
            Plan::MatchAV(0, "color".to_string(), red()),
        ],
    });
    let (imp, _handle) = plan.implement(&local, &context).unwrap();
    let rows = rows_of(imp);
    assert_eq!(
        rows,
        vec![
            (vec![Value::Eid(1)], 0, 1),
            (vec![Value::Eid(2)], 0, 1),
        ]
    );
}

#[test]
fn projection_drops_columns() {
    let mut context = InMemoryContext::new();
    context.underconstrained.push("r".to_string());
    let mut local = VariableMap::new();
    local.bind(
        "r".to_string(),
        vec![(
            vec![Value::Eid(1), Value::Eid(2), Value::String("a".to_string())],
            0,
            1,
        )],
    );
    let plan = Plan::Project(Project {
        variables: vec![0, 2],
        plan: Box::new(Plan::NameExpr(vec![0, 1, 2], "r".to_string())),
    });
    let (imp, _handle) = plan.implement(&local, &context).unwrap();
    let rows = rows_of(imp);
    assert_eq!(
        rows,
        vec![(
            vec![Value::Eid(1), Value::String("a".to_string())],
            0,
            1
        )]
    );
}

#[test]
fn match_ea_filters_entities() {
    let context = context_with(vec![(
        "parent",
        vec![(1, Value::Eid(2)), (1, Value::Eid(3)), (2, Value::Eid(4))],
    )]);
    let local = VariableMap::new();
    let plan = Plan::MatchEA(1, "parent".to_string(), 0);
    let (imp, _handle) = plan.implement(&local, &context).unwrap();
    let rows = rows_of(imp);
    assert_eq!(
        rows,
        vec![
            (vec![Value::Eid(2)], 0, 1),
            (vec![Value::Eid(3)], 0, 1),
        ]
    );
}

#[test]
fn negation_flips_diffs() {
    let mut context = InMemoryContext::new();
    context.underconstrained.push("r".to_string());
    let mut local = VariableMap::new();
    local.bind("r".to_string(), vec![(vec![Value::Eid(1)], 0, 1)]);
    let plan = Plan::Negate(Box::new(Plan::NameExpr(vec![0], "r".to_string())));
    let (imp, _handle) = plan.implement(&local, &context).unwrap();
    let rows = rows_of(imp);
    assert_eq!(rows, vec![(vec![Value::Eid(1)], 0, -1)]);
}

#[test]
fn missing_attribute_is_refused() {
    let context = InMemoryContext::new();
    let local = VariableMap::new();
    let plan = Plan::MatchA(0, "nope".to_string(), 1);
    match plan.implement(&local, &context) {
        Err(CompileError::MissingAttribute(a)) => assert_eq!(a, "nope"),
        other => panic!("expected a missing attribute error, got {:?}", other.is_ok()),
    }
}

#[test]
fn unknown_rule_and_arrangement_are_refused() {
    let mut context = InMemoryContext::new();
    context.underconstrained.push("r".to_string());
    let local = VariableMap::new();
    match Plan::NameExpr(vec![0], "r".to_string()).implement(&local, &context) {
        Err(CompileError::UnknownRule(n)) => assert_eq!(n, "r"),
        other => panic!("expected an unknown rule error, got {:?}", other.is_ok()),
    }
    match Plan::NameExpr(vec![0], "g".to_string()).implement(&local, &context) {
        Err(CompileError::UnknownArrangement(n)) => assert_eq!(n, "g"),
        other => panic!("expected an unknown arrangement error, got {:?}", other.is_ok()),
    }
}

#[test]
fn join_shape_errors() {
    let context = context_with(vec![("parent", vec![(1, Value::Eid(2))])]);
    let local = VariableMap::new();
    let leaf = || Box::new(Plan::MatchA(0, "parent".to_string(), 1));
    let unbound = Plan::Join(Join {
        variables: vec![5],
        left_plan: leaf(),
        right_plan: leaf(),
    });
    assert!(matches!(
        unbound.implement(&local, &context),
        Err(CompileError::UnboundJoinTarget)
    ));
    let two = Plan::Join(Join {
        variables: vec![0, 1],
        left_plan: leaf(),
        right_plan: leaf(),
    });
    assert!(matches!(
        two.implement(&local, &context),
        Err(CompileError::UnimplementedShape)
    ));
    let three = Plan::Join(Join {
        variables: vec![0, 1, 2],
        left_plan: leaf(),
        right_plan: leaf(),
    });
    assert!(matches!(
        three.implement(&local, &context),
        Err(CompileError::JoinArityExceeded)
    ));
}

#[test]
fn unbound_projection_is_refused() {
    let context = context_with(vec![("parent", vec![(1, Value::Eid(2))])]);
    let local = VariableMap::new();
    let plan = Plan::Project(Project {
        variables: vec![7],
        plan: Box::new(Plan::MatchA(0, "parent".to_string(), 1)),
    });
    assert!(matches!(
        plan.implement(&local, &context),
        Err(CompileError::UnboundVariable(7))
    ));
}

#[test]
fn reverse_propose_serves_value_keyed_joins() {
    // join target is the value variable of the left attribute
    let context = context_with(vec![
        ("parent", vec![(1, Value::Eid(7)), (2, Value::Eid(8))]),
        ("age", vec![(7, Value::Number(40)), (8, Value::Number(41))]),
    ]);
    let local = VariableMap::new();
    let plan = Plan::Join(Join {
        variables: vec![1],
        left_plan: Box::new(Plan::MatchA(0, "parent".to_string(), 1)),
        right_plan: Box::new(Plan::MatchA(1, "age".to_string(), 2)),
    });
    let (imp, _handle) = plan.implement(&local, &context).unwrap();
    let rows = rows_of(imp);
    assert_eq!(
        rows,
        vec![
            (vec![Value::Eid(7), Value::Eid(1), Value::Number(40)], 0, 1),
            (vec![Value::Eid(8), Value::Eid(2), Value::Number(41)], 0, 1),
        ]
    );
}

#[test]
fn dependencies_cover_all_buttons() {
    let context = context_with(vec![
        ("parent", vec![(1, Value::Eid(2))]),
        ("name", vec![(1, Value::String("a".to_string()))]),
    ]);
    let local = VariableMap::new();
    let plan = Plan::Join(Join {
        variables: vec![0],
        left_plan: Box::new(Plan::MatchA(0, "parent".to_string(), 1)),
        right_plan: Box::new(Plan::MatchA(0, "name".to_string(), 2)),
    });
    let deps = plan.dependencies();
    let (_imp, handle) = plan.implement(&local, &context).unwrap();
    for button in &handle.buttons {
        assert!(
            deps.names.contains(&button.source) || deps.attributes.contains(&button.source),
            "button source must be declared as a dependency"
        );
    }
    assert!(deps.attributes.contains(&"parent".to_string()));
    assert!(deps.attributes.contains(&"name".to_string()));
    assert!(deps.names.is_empty());
}

#[test]
fn dependencies_merge_is_a_union() {
    let d1 = declarative_dataflow::plan::Dependencies::attribute("a");
    let d2 = declarative_dataflow::plan::Dependencies::name("r");
    let merged = declarative_dataflow::plan::Dependencies::merge(d1, d2);
    assert_eq!(merged.attributes, vec!["a".to_string()]);
    assert_eq!(merged.names, vec!["r".to_string()]);
    let d3 = declarative_dataflow::plan::Dependencies::attribute("a");
    let again = declarative_dataflow::plan::Dependencies::merge(merged, d3);
    assert_eq!(again.attributes, vec!["a".to_string()]);
}

#[test]
fn shutdown_press_is_idempotent() {
    let mut handle = ShutdownHandle::from_button(ShutdownButton::new("parent".to_string()));
    handle.add_button(ShutdownButton::new("name".to_string()));
    assert!(handle.buttons.iter().all(|b| !b.pressed));
    handle.press();
    assert!(handle.buttons.iter().all(|b| b.pressed));
    let sources: Vec<String> = handle.buttons.iter().map(|b| b.source.clone()).collect();
    handle.press();
    assert!(handle.buttons.iter().all(|b| b.pressed));
    let sources_after: Vec<String> = handle.buttons.iter().map(|b| b.source.clone()).collect();
    assert_eq!(sources, sources_after);
}

#[test]
fn pressing_a_compiled_handle_presses_every_import() {
    let context = context_with(vec![
        ("parent", vec![(1, Value::Eid(2))]),
        ("name", vec![(1, Value::String("a".to_string()))]),
    ]);
    let local = VariableMap::new();
    let plan = Plan::Join(Join {
        variables: vec![0],
        left_plan: Box::new(Plan::MatchA(0, "parent".to_string(), 1)),
        right_plan: Box::new(Plan::MatchA(0, "name".to_string(), 2)),
    });
    let (_imp, mut handle) = plan.implement(&local, &context).unwrap();
    let sources: Vec<String> = handle.buttons.iter().map(|b| b.source.clone()).collect();
    assert!(handle.buttons.iter().all(|b| !b.pressed));
    handle.press();
    assert!(handle.buttons.iter().all(|b| b.pressed));
    let after: Vec<String> = handle.buttons.iter().map(|b| b.source.clone()).collect();
    assert_eq!(sources, after);
    assert_eq!(sources.len(), 2);
}

#[test]
fn generators_are_monotone() {
    let mut gen = Generators::new();
    let a = next_id(&mut gen);
    let b = next_id(&mut gen);
    assert_eq!(a, 0);
    assert_eq!(b, 1);
    let s1 = gensym(&mut gen);
    let s2 = gensym(&mut gen);
    assert_eq!(s1, i64::MAX);
    assert_eq!(s2, i64::MAX - 1);
}

#[test]
fn into_bindings_of_patterns() {
    let mut gen = Generators::new();
    let plan = Plan::MatchEA(42, "parent".to_string(), 0);
    let bindings = plan.into_bindings(&mut gen);
    assert_eq!(bindings.len(), 2);
    match &bindings[0] {
        Binding::Attribute(ab) => {
            assert_eq!(ab.variables, (i64::MAX, 0));
            assert_eq!(ab.source_attribute, "parent");
        }
        _ => panic!("expected an attribute binding first"),
    }
    match &bindings[1] {
        Binding::Constant(cb) => {
            assert_eq!(cb.variable, i64::MAX);
            assert_eq!(cb.value, Value::Eid(42));
        }
        _ => panic!("expected a constant binding second"),
    }
}

#[test]
fn datafy_of_patterns() {
    let mut gen = Generators::new();
    let plan = Plan::MatchAV(0, "color".to_string(), Value::String("red".to_string()));
    let data = plan.datafy(&mut gen);
    assert_eq!(
        data,
        vec![
            (
                0,
                "df.pattern/a".to_string(),
                Value::Aid("color".to_string())
            ),
            (
                1,
                "df.pattern/v".to_string(),
                Value::String("red".to_string())
            ),
        ]
    );
    assert_eq!(gen.next_eid, 2);
}

#[test]
fn plan_variables_follow_the_shape() {
    let plan = Plan::Join(Join {
        variables: vec![3],
        left_plan: Box::new(Plan::MatchA(3, "p".to_string(), 4)),
        right_plan: Box::new(Plan::MatchEA(9, "q".to_string(), 3)),
    });
    assert_eq!(plan.variables(), vec![3]);
    assert_eq!(
        Plan::MatchA(1, "p".to_string(), 2).variables(),
        vec![1, 2]
    );
    assert_eq!(Plan::MatchEA(9, "p".to_string(), 5).variables(), vec![5]);
    assert_eq!(
        Plan::MatchAV(6, "p".to_string(), Value::Bool(true)).variables(),
        vec![6]
    );
}
