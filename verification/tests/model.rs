use tfstacks::defaults::{merge_module_defaults, node_with_defaults};
use tfstacks::parser::{Dependency, InfraFile, InfraNode, InputValue, ModuleDefaults, ModuleNode, ScopeNode};
use tfstacks::report::error_cause_lines;
use tfstacks::schema::{
    dependencies_from_names, finish_module, finish_scope, node_shape, validate_module_node, InfraError,
    ModuleFault, NodeShape,
};
use tfstacks::scoping::node_with_scopes;
use tfstacks::value::{upsert_entry, Number, Value};

fn text(s: &str) -> Value {
    Value::String(s.to_string())
}

fn num(n: u64) -> Value {
    Value::Number(Number::PosInt(n))
}

fn map(entries: Vec<(&str, Value)>) -> Value {
    Value::Mapping(dict(entries))
}

fn dict(entries: Vec<(&str, Value)>) -> Vec<(String, Value)> {
    entries.into_iter().map(|(k, v)| (k.to_string(), v)).collect()
}

fn dep(name: &str) -> Dependency {
    Dependency { id: String::new(), name: name.to_string() }
}

fn bare(source: &str) -> ModuleNode {
    ModuleNode {
        source: source.to_string(),
        id: String::new(),
        dependencies: Vec::new(),
        variables: Vec::new(),
        mocked_outputs: None,
        inputs: Vec::new(),
        scope_ids: Vec::new(),
    }
}

fn defaults() -> ModuleDefaults {
    ModuleDefaults {
        dependencies: vec![dep("vpc")],
        variables: dict(vec![("size", num(1)), ("zone", text("a"))]),
        mocked_outputs: Some(dict(vec![("id", text("mock"))])),
        inputs: vec![
            ("net".to_string(), InputValue::Ref { path: "vpc.id".to_string() }),
            ("size".to_string(), InputValue::Default(num(2))),
        ],
    }
}

#[test]
fn defaults_fill_what_a_module_leaves_open() {
    let mut module = bare("db");
    merge_module_defaults(&mut module, &defaults());
    assert_eq!(module.dependencies, vec![dep("vpc")]);
    assert_eq!(module.variables, dict(vec![("size", num(1)), ("zone", text("a"))]));
    assert_eq!(module.mocked_outputs, Some(dict(vec![("id", text("mock"))])));
    assert_eq!(module.inputs, defaults().inputs);
    assert_eq!(module.source, "db");
}

#[test]
fn what_a_module_declares_overrides_the_defaults() {
    let mut module = bare("db");
    module.dependencies = vec![dep("other")];
    module.variables = dict(vec![("zone", text("mine"))]);
    module.mocked_outputs = Some(Vec::new());
    module.inputs = vec![("size".to_string(), InputValue::Default(num(9)))];
    merge_module_defaults(&mut module, &defaults());
    assert_eq!(module.dependencies, vec![dep("other")]);
    assert_eq!(module.variables, dict(vec![("zone", text("mine")), ("size", num(1))]));
    assert_eq!(module.mocked_outputs, Some(Vec::new()));
    assert_eq!(
        module.inputs,
        vec![
            ("size".to_string(), InputValue::Default(num(9))),
            ("net".to_string(), InputValue::Ref { path: "vpc.id".to_string() }),
        ]
    );
}

fn tree() -> InfraFile {
    InfraFile {
        nodes: vec![
            ("lonely".to_string(), InfraNode::Module(bare("db"))),
            (
                "acct".to_string(),
                InfraNode::Scope(ScopeNode {
                    scope: "account".to_string(),
                    id: "acct".to_string(),
                    variables: dict(vec![("region", text("eu"))]),
                    children: vec![
                        ("web".to_string(), InfraNode::Module(bare("web"))),
                        (
                            "tenant".to_string(),
                            InfraNode::Scope(ScopeNode {
                                scope: "tenant".to_string(),
                                id: "acct.tenant".to_string(),
                                variables: Vec::new(),
                                children: vec![("db".to_string(), InfraNode::Module(bare("db")))],
                            }),
                        ),
                    ],
                }),
            ),
        ],
        source_defaults: vec![("db".to_string(), defaults())],
    }
}

fn module_at<'a>(file: &'a InfraFile, keys: &[&str]) -> &'a ModuleNode {
    let mut nodes = &file.nodes;
    for (depth, key) in keys.iter().enumerate() {
        let node = &nodes.iter().find(|(k, _)| k == key).unwrap().1;
        match node {
            InfraNode::Module(m) => {
                assert_eq!(depth + 1, keys.len());
                return m;
            }
            InfraNode::Scope(s) => nodes = &s.children,
        }
    }
    panic!("no module at {:?}", keys);
}

#[test]
fn apply_defaults_reaches_every_module_of_the_source() {
    let mut file = tree();
    file.apply_defaults();
    assert_eq!(module_at(&file, &["lonely"]).dependencies, vec![dep("vpc")]);
    assert_eq!(module_at(&file, &["acct", "tenant", "db"]).dependencies, vec![dep("vpc")]);
    assert_eq!(module_at(&file, &["acct", "web"]), &bare("web"));
    assert_eq!(file.source_defaults, tree().source_defaults);
    let again = node_with_defaults(&tree().nodes[0].1, &tree().source_defaults);
    assert_eq!(again, file.nodes[0].1);
}

#[test]
fn modules_learn_their_enclosing_scopes_outermost_first() {
    let mut file = tree();
    file.add_scope_id_to_childrens();
    assert_eq!(module_at(&file, &["lonely"]).scope_ids, Vec::<String>::new());
    assert_eq!(module_at(&file, &["acct", "web"]).scope_ids, vec!["acct"]);
    assert_eq!(module_at(&file, &["acct", "tenant", "db"]).scope_ids, vec!["acct", "acct.tenant"]);
    let before = tree();
    match (&file.nodes[1].1, &before.nodes[1].1) {
        (InfraNode::Scope(after), InfraNode::Scope(untouched)) => {
            assert_eq!(after.variables, untouched.variables);
            assert_eq!(after.id, untouched.id);
            assert_eq!(after.scope, untouched.scope);
        }
        _ => unreachable!(),
    }
}

#[test]
fn scope_ids_are_added_once() {
    let mut module = bare("db");
    module.scope_ids = vec!["b".to_string()];
    let around = vec!["a".to_string(), "b".to_string(), "a".to_string()];
    match node_with_scopes(&InfraNode::Module(module), &around) {
        InfraNode::Module(m) => assert_eq!(m.scope_ids, vec!["b", "a"]),
        _ => unreachable!(),
    }
}

#[test]
fn validation_reports_the_first_rule_broken() {
    let good = bare("db");
    assert_eq!(validate_module_node(&good, true), Ok(()));
    assert_eq!(validate_module_node(&good, false), Err(ModuleFault::SourceDirMissing));
    let mut with_id = bare("");
    with_id.id = "x".to_string();
    assert_eq!(validate_module_node(&with_id, false), Err(ModuleFault::IdSet));
    assert_eq!(validate_module_node(&bare(""), false), Err(ModuleFault::SourceEmpty));
    let mut with_vars = bare("db");
    with_vars.variables = dict(vec![("a", num(1))]);
    with_vars.scope_ids = vec!["s".to_string()];
    assert_eq!(validate_module_node(&with_vars, true), Err(ModuleFault::VariablesSet));
    let mut with_scopes = bare("db");
    with_scopes.scope_ids = vec!["s".to_string()];
    assert_eq!(validate_module_node(&with_scopes, true), Err(ModuleFault::ScopeIdsSet));
}

#[test]
fn declared_names_become_unresolved_dependencies() {
    assert_eq!(
        dependencies_from_names(vec!["vpc".to_string(), "db".to_string()]),
        vec![dep("vpc"), dep("db")]
    );
    assert_eq!(dependencies_from_names(Vec::new()), Vec::new());
}

#[test]
fn input_declarations_are_references_or_literals() {
    assert_eq!(
        InputValue::from_value(map(vec![("from", text("vpc.id"))])),
        InputValue::Ref { path: "vpc.id".to_string() }
    );
    assert_eq!(
        InputValue::from_value(map(vec![("default", Value::Null), ("from", text("vpc.id")), ("x", num(1))])),
        InputValue::RefWithDefault { path: "vpc.id".to_string(), default: Value::Null }
    );
    let not_a_path = map(vec![("from", num(3)), ("default", num(1))]);
    assert_eq!(InputValue::from_value(not_a_path.clone()), InputValue::Default(not_a_path));
    let plain = map(vec![("a", num(1))]);
    assert_eq!(InputValue::from_value(plain.clone()), InputValue::Default(plain));
    assert_eq!(InputValue::from_value(text("from")), InputValue::Default(text("from")));
    assert_eq!(
        InputValue::from_value(Value::Sequence(vec![num(1)])),
        InputValue::Default(Value::Sequence(vec![num(1)]))
    );
}

#[test]
fn a_mapping_with_a_source_is_a_module() {
    assert_eq!(node_shape(&map(vec![("source", text("db"))]), "a.db"), Ok(NodeShape::Module));
    assert_eq!(
        node_shape(&map(vec![("scope", text("x")), ("source", Value::Null)]), "a.db"),
        Ok(NodeShape::Module)
    );
}

#[test]
fn a_mapping_with_a_scope_name_is_a_scope() {
    let doc = map(vec![
        ("scope", text("account")),
        ("variables", map(vec![("region", text("eu")), ("n", num(1)), ("region", text("us"))])),
        ("web", map(vec![("source", text("web"))])),
        ("note", text("not a node")),
        ("inner", map(vec![("scope", text("tenant"))])),
    ]);
    assert_eq!(
        node_shape(&doc, "acct"),
        Ok(NodeShape::Scope {
            scope: "account".to_string(),
            variables: dict(vec![("region", text("us")), ("n", num(1))]),
            children: vec![
                ("web".to_string(), "acct.web".to_string(), map(vec![("source", text("web"))])),
                ("inner".to_string(), "acct.inner".to_string(), map(vec![("scope", text("tenant"))])),
            ],
        })
    );
    assert_eq!(
        node_shape(&map(vec![("scope", text("s")), ("variables", text("none"))]), "p"),
        Ok(NodeShape::Scope { scope: "s".to_string(), variables: Vec::new(), children: Vec::new() })
    );
}

#[test]
fn anything_else_is_refused_with_its_place() {
    assert_eq!(
        node_shape(&text("x"), "a.b"),
        Err(InfraError::InvalidStructure("expected mapping at a.b".to_string()))
    );
    assert_eq!(
        node_shape(&map(vec![("scope", num(1))]), "a.b"),
        Err(InfraError::InvalidStructure("Scope at path 'a.b' must have a non-empty 'scope'".to_string()))
    );
    assert_eq!(
        node_shape(&map(vec![("other", num(1))]), "a.b"),
        Err(InfraError::InvalidStructure(
            "Failed to parse node at a.b it must be a scope (have scope key) or a module (have a source key)"
                .to_string()
        ))
    );
}

#[test]
fn finished_nodes_carry_their_ids() {
    match finish_module(bare("db"), "acct.db") {
        InfraNode::Module(m) => {
            assert_eq!(m.id, "acct.db");
            assert_eq!(m.source, "db");
        }
        _ => unreachable!(),
    }
    let children = vec![
        ("a".to_string(), InfraNode::Module(bare("first"))),
        ("b".to_string(), InfraNode::Module(bare("b"))),
        ("a".to_string(), InfraNode::Module(bare("second"))),
    ];
    match finish_scope("acct", "account".to_string(), dict(vec![("v", num(1))]), children) {
        InfraNode::Scope(s) => {
            assert_eq!(s.id, "acct");
            assert_eq!(s.scope, "account");
            assert_eq!(s.variables, dict(vec![("v", num(1))]));
            assert_eq!(
                s.children,
                vec![
                    ("a".to_string(), InfraNode::Module(bare("second"))),
                    ("b".to_string(), InfraNode::Module(bare("b"))),
                ]
            );
        }
        _ => unreachable!(),
    }
}

#[test]
fn binding_replaces_in_place_or_appends() {
    let mut entries = dict(vec![("a", num(1)), ("b", num(2))]);
    upsert_entry(&mut entries, "a".to_string(), num(3));
    upsert_entry(&mut entries, "c".to_string(), num(4));
    assert_eq!(entries, dict(vec![("a", num(3)), ("b", num(2)), ("c", num(4))]));
}

#[test]
fn cause_is_shown_behind_a_bar_with_its_other_lines_beneath() {
    assert_eq!(error_cause_lines("one"), vec!["  | one"]);
    assert_eq!(error_cause_lines("one\ntwo\nthree"), vec!["  | one", "    two", "    three"]);
    assert_eq!(error_cause_lines("one\r\ntwo\r\n"), vec!["  | one", "    two"]);
    assert_eq!(error_cause_lines("one\n\nthree\n"), vec!["  | one", "    ", "    three"]);
    assert_eq!(error_cause_lines("tail\r"), vec!["  | tail\r"]);
    assert_eq!(error_cause_lines("\n"), vec!["  | "]);
    assert_eq!(error_cause_lines(""), Vec::<String>::new());
}

#[test]
fn cause_lines_agree_with_the_lines_of_the_text() {
    for msg in ["a\nb", "a\r\n\r\nb\n", "\r\n", "x\ry\n", "\n\n", "no newline", "ends\n", "\u{e9}t\u{e9}\n\u{540d}"] {
        let expected: Vec<String> = msg
            .lines()
            .enumerate()
            .map(|(i, l)| if i == 0 { format!("  | {}", l) } else { format!("    {}", l) })
            .collect();
        assert_eq!(error_cause_lines(msg), expected, "{:?}", msg);
    }
}

#[test]
fn values_copy_deeply() {
    let v = map(vec![
        ("list", Value::Sequence(vec![num(1), Value::Number(Number::NegInt(-2)), Value::Number(Number::Float(0x3ff8000000000000))])),
        ("flag", Value::Bool(false)),
        ("nothing", Value::Null),
        ("inner", map(vec![("k", text("v"))])),
    ]);
    assert_eq!(v.clone(), v);
    assert_eq!(v.duplicate_value(), v);
}
