use tfstacks::error::StackError;
use tfstacks::graph::ModuleGraph;
use tfstacks::parser::{Dependency, InfraFile, InfraNode, InputValue, ModuleNode, ScopeNode};
use tfstacks::path::{parse_path, PathSegment};
use tfstacks::resolver::{
    find_scope_variable, get_value_from_path, inject_inputs, resolve_input, resolve_ref, OutputsMap,
};
use tfstacks::value::{find_key, Number, Value};

fn text(s: &str) -> Value {
    Value::String(s.to_string())
}

fn num(n: u64) -> Value {
    Value::Number(Number::PosInt(n))
}

fn map(entries: Vec<(&str, Value)>) -> Value {
    Value::Mapping(entries.into_iter().map(|(k, v)| (k.to_string(), v)).collect())
}

fn dict(entries: Vec<(&str, Value)>) -> Vec<(String, Value)> {
    entries.into_iter().map(|(k, v)| (k.to_string(), v)).collect()
}

fn key(s: &str) -> PathSegment {
    PathSegment::Key(s.to_string())
}

fn syntax_error(path: &str) -> StackError {
    StackError::ReferenceSyntaxError(path.to_string())
}

#[test]
fn parse_path_reads_keys_and_indices() {
    assert_eq!(
        parse_path("subnets[0].id"),
        Ok(vec![key("subnets"), PathSegment::Index(0), key("id")])
    );
    assert_eq!(
        parse_path("subnets[0][1]"),
        Ok(vec![key("subnets"), PathSegment::Index(0), PathSegment::Index(1)])
    );
    assert_eq!(parse_path("a.b.c"), Ok(vec![key("a"), key("b"), key("c")]));
    assert_eq!(parse_path("[3]"), Ok(vec![PathSegment::Index(3)]));
    assert_eq!(parse_path("a[12]b"), Ok(vec![key("a"), PathSegment::Index(12), key("b")]));
    assert_eq!(parse_path("a[007]"), Ok(vec![key("a"), PathSegment::Index(7)]));
    assert_eq!(parse_path("a[+4]"), Ok(vec![key("a"), PathSegment::Index(4)]));
}

#[test]
fn parse_path_skips_empty_parts() {
    assert_eq!(parse_path(""), Ok(vec![]));
    assert_eq!(parse_path("."), Ok(vec![]));
    assert_eq!(parse_path("a..b."), Ok(vec![key("a"), key("b")]));
}

#[test]
fn parse_path_takes_a_stray_closing_bracket_as_text() {
    assert_eq!(parse_path("a]b"), Ok(vec![key("a]b")]));
}

#[test]
fn parse_path_keeps_characters_outside_ascii() {
    assert_eq!(
        parse_path("sch\u{fc}ssel[1].\u{540d}"),
        Ok(vec![key("sch\u{fc}ssel"), PathSegment::Index(1), key("\u{540d}")])
    );
}

#[test]
fn parse_path_refuses_malformed_brackets() {
    for bad in ["a[", "a[0", "a[0].b[", "a[]", "a[x]", "a[-1]", "a[1.5]", "a[ 1]", "a[+]", "a[1]]x[", "x.y[z].w"] {
        assert_eq!(parse_path(bad), Err(syntax_error(bad)), "{}", bad);
    }
}

#[test]
fn parse_path_refuses_an_index_beyond_the_machine_word() {
    let largest = format!("a[{}]", usize::MAX);
    assert_eq!(parse_path(&largest), Ok(vec![key("a"), PathSegment::Index(usize::MAX)]));
    let beyond = format!("a[{}0]", usize::MAX);
    assert_eq!(parse_path(&beyond), Err(syntax_error(&beyond)));
    assert_eq!(
        parse_path("a[99999999999999999999999999999999]"),
        Err(syntax_error("a[99999999999999999999999999999999]"))
    );
}

#[test]
fn walk_follows_keys_and_indices() {
    let root = map(vec![
        ("name", text("main")),
        ("subnets", Value::Sequence(vec![map(vec![("id", text("s-0"))]), map(vec![("id", text("s-1"))])])),
    ]);
    let at = |p: &str| get_value_from_path(&root, &parse_path(p).unwrap());
    assert_eq!(at("name"), Some(text("main")));
    assert_eq!(at("subnets[1].id"), Some(text("s-1")));
    assert_eq!(at("subnets[0]"), Some(map(vec![("id", text("s-0"))])));
    assert_eq!(at(""), Some(root.clone()));
}

#[test]
fn walk_gives_nothing_where_the_path_leads_nowhere() {
    let root = map(vec![("name", text("main")), ("list", Value::Sequence(vec![num(1)]))]);
    let at = |p: &str| get_value_from_path(&root, &parse_path(p).unwrap());
    assert_eq!(at("missing"), None);
    assert_eq!(at("name.deeper"), None);
    assert_eq!(at("name[0]"), None);
    assert_eq!(at("list[1]"), None);
    assert_eq!(at("list.key"), None);
    assert_eq!(at("[0]"), None);
}

#[test]
fn walk_takes_wrappers_off_after_every_step() {
    let root = map(vec![
        ("endpoint", Value::Sequence(vec![map(vec![("value", map(vec![("host", text("x"))]))])])),
        ("twice", map(vec![("value", map(vec![("value", num(7)), ("type", text("number"))]))])),
        ("value", text("top")),
    ]);
    let at = |p: &str| get_value_from_path(&root, &parse_path(p).unwrap());
    assert_eq!(at("endpoint[0].host"), Some(text("x")));
    assert_eq!(at("endpoint[0]"), Some(map(vec![("host", text("x"))])));
    assert_eq!(at("twice"), Some(num(7)));
    // The root itself is not unwrapped: only what a step arrives at.
    assert_eq!(at("value"), Some(text("top")));
    assert_eq!(at(""), Some(root.clone()));
}

#[test]
fn walk_uses_the_first_entry_of_a_key() {
    let root = Value::Mapping(vec![("k".to_string(), num(1)), ("k".to_string(), num(2))]);
    assert_eq!(get_value_from_path(&root, &vec![key("k")]), Some(num(1)));
    assert_eq!(find_key(&vec![("k".to_string(), num(1)), ("k".to_string(), num(2))], &"k".to_string()), Some(0));
}

fn world() -> (ModuleGraph, ModuleNode, OutputsMap) {
    let app = ModuleNode {
        source: "app".to_string(),
        id: "acct.tenant.app".to_string(),
        dependencies: vec![Dependency { id: String::new(), name: "db".to_string() }],
        variables: vec![("kept".to_string(), num(1)), ("name".to_string(), text("old"))],
        mocked_outputs: None,
        inputs: vec![
            ("host".to_string(), InputValue::Ref { path: "db.endpoint[0].host".to_string() }),
            ("name".to_string(), InputValue::Default(text("new"))),
            ("region".to_string(), InputValue::Ref { path: "account.region".to_string() }),
            (
                "zone".to_string(),
                InputValue::RefWithDefault { path: "tenant.zone".to_string(), default: text("z1") },
            ),
        ],
        scope_ids: vec!["acct".to_string(), "acct.tenant".to_string()],
    };
    let db = ModuleNode {
        source: "db".to_string(),
        id: "acct.db".to_string(),
        dependencies: Vec::new(),
        variables: Vec::new(),
        mocked_outputs: None,
        inputs: Vec::new(),
        scope_ids: vec!["acct".to_string()],
    };
    let tree = InfraFile {
        nodes: vec![(
            "acct".to_string(),
            InfraNode::Scope(ScopeNode {
                scope: "account".to_string(),
                id: "acct".to_string(),
                variables: dict(vec![("region", text("eu-west")), ("tier", map(vec![("value", num(3))]))]),
                children: vec![
                    ("db".to_string(), InfraNode::Module(db)),
                    (
                        "tenant".to_string(),
                        InfraNode::Scope(ScopeNode {
                            scope: "tenant".to_string(),
                            id: "acct.tenant".to_string(),
                            variables: dict(vec![("id", text("t-1"))]),
                            children: vec![("app".to_string(), InfraNode::Module(app))],
                        }),
                    ),
                ],
            }),
        )],
        source_defaults: Vec::new(),
    };
    let graph = ModuleGraph::new(&tree).unwrap();
    let module = graph.get_module_by_id("acct.tenant.app").unwrap();
    let outputs: OutputsMap = vec![(
        "acct.db".to_string(),
        dict(vec![("endpoint", Value::Sequence(vec![map(vec![("value", map(vec![("host", text("x"))]))])]))]),
    )];
    (graph, module, outputs)
}

#[test]
fn reference_into_dependency_outputs_unwraps_values() {
    let (graph, module, outputs) = world();
    assert_eq!(resolve_ref("db.endpoint[0].host", &module, &outputs, &graph), Ok(Some(text("x"))));
    assert_eq!(
        resolve_ref("db", &module, &outputs, &graph),
        Ok(Some(Value::Mapping(outputs[0].1.clone())))
    );
}

#[test]
fn reference_into_scope_variables() {
    let (graph, module, outputs) = world();
    assert_eq!(resolve_ref("account.region", &module, &outputs, &graph), Ok(Some(text("eu-west"))));
    assert_eq!(resolve_ref("account.tier", &module, &outputs, &graph), Ok(Some(num(3))));
    assert_eq!(resolve_ref("tenant.id", &module, &outputs, &graph), Ok(Some(text("t-1"))));
    assert_eq!(find_scope_variable(&module, "tenant", "id", &graph), Ok(Some(text("t-1"))));
    assert_eq!(find_scope_variable(&module, "tenant", "nothing", &graph), Ok(None));
    assert_eq!(find_scope_variable(&module, "planet", "id", &graph), Ok(None));
    assert_eq!(find_scope_variable(&module, "tenant", "id[", &graph), Err(syntax_error("id[")));
}

#[test]
fn reference_outcomes_by_kind_of_failure() {
    let (graph, module, outputs) = world();
    let none: OutputsMap = Vec::new();
    assert_eq!(resolve_ref("planet.name", &module, &outputs, &graph), Ok(None));
    assert_eq!(resolve_ref("tenant.nothing", &module, &outputs, &graph), Ok(None));
    assert_eq!(
        resolve_ref("db.endpoint[1]", &module, &outputs, &graph),
        Err(StackError::ReferenceNotFound("db.endpoint[1]".to_string()))
    );
    assert_eq!(
        resolve_ref("db.endpoint", &module, &none, &graph),
        Err(StackError::ReferenceNotFound("db.endpoint".to_string()))
    );
    assert_eq!(resolve_ref("db.endpoint[", &module, &outputs, &graph), Err(syntax_error("db.endpoint[")));
    assert_eq!(resolve_ref("tenant.id[x]", &module, &outputs, &graph), Err(syntax_error("tenant.id[x]")));
    // A head that names nothing is never walked, so its path is never read.
    assert_eq!(resolve_ref("planet.id[x]", &module, &outputs, &graph), Ok(None));
}

#[test]
fn dependency_name_shadows_a_scope_type() {
    let (graph, mut module, outputs) = world();
    module.dependencies[0].name = "account".to_string();
    assert_eq!(
        resolve_ref("account.region", &module, &outputs, &graph),
        Err(StackError::ReferenceNotFound("account.region".to_string()))
    );
}

#[test]
fn default_is_taken_wherever_the_reference_gives_no_value() {
    let (graph, module, outputs) = world();
    let none: OutputsMap = Vec::new();
    let with_default = |path: &str| InputValue::RefWithDefault { path: path.to_string(), default: text("fallback") };
    assert_eq!(resolve_input(&with_default("planet.name"), &module, &outputs, &graph), Ok(text("fallback")));
    assert_eq!(resolve_input(&with_default("tenant.nothing"), &module, &outputs, &graph), Ok(text("fallback")));
    assert_eq!(resolve_input(&with_default("db.nothing"), &module, &outputs, &graph), Ok(text("fallback")));
    assert_eq!(resolve_input(&with_default("db.endpoint"), &module, &none, &graph), Ok(text("fallback")));
    assert_eq!(resolve_input(&with_default("tenant.id"), &module, &outputs, &graph), Ok(text("t-1")));
    assert_eq!(
        resolve_input(&with_default("db.endpoint["), &module, &outputs, &graph),
        Err(syntax_error("db.endpoint["))
    );
}

#[test]
fn plain_reference_must_resolve() {
    let (graph, module, outputs) = world();
    let plain = |path: &str| InputValue::Ref { path: path.to_string() };
    assert_eq!(resolve_input(&plain("tenant.id"), &module, &outputs, &graph), Ok(text("t-1")));
    assert_eq!(
        resolve_input(&plain("planet.name"), &module, &outputs, &graph),
        Err(StackError::ReferenceNotFound("planet.name".to_string()))
    );
    assert_eq!(
        resolve_input(&plain("db.nothing"), &module, &outputs, &graph),
        Err(StackError::ReferenceNotFound("db.nothing".to_string()))
    );
    assert_eq!(resolve_input(&InputValue::Default(num(5)), &module, &outputs, &graph), Ok(num(5)));
}

#[test]
fn injection_binds_every_input() {
    let (graph, mut module, outputs) = world();
    let before = module.clone();
    assert_eq!(inject_inputs(&mut module, &outputs, &graph), Ok(()));
    assert_eq!(
        module.variables,
        dict(vec![
            ("kept", num(1)),
            ("name", text("new")),
            ("host", text("x")),
            ("region", text("eu-west")),
            ("zone", text("z1")),
        ])
    );
    assert_eq!(module.inputs, before.inputs);
    assert_eq!(module.dependencies, before.dependencies);
    assert_eq!(module.scope_ids, before.scope_ids);
    assert_eq!(module.id, before.id);
}

#[test]
fn injection_twice_is_injection_once() {
    let (graph, mut module, outputs) = world();
    assert_eq!(inject_inputs(&mut module, &outputs, &graph), Ok(()));
    let once = module.clone();
    assert_eq!(inject_inputs(&mut module, &outputs, &graph), Ok(()));
    assert_eq!(module, once);
}

#[test]
fn injection_twice_is_injection_once_even_with_a_name_declared_twice() {
    let (graph, mut module, outputs) = world();
    module.inputs.push(("host".to_string(), InputValue::Default(text("later"))));
    module.inputs.insert(0, ("kept".to_string(), InputValue::Ref { path: "tenant.id".to_string() }));
    assert_eq!(inject_inputs(&mut module, &outputs, &graph), Ok(()));
    let once = module.clone();
    assert_eq!(
        once.variables,
        dict(vec![
            ("kept", text("t-1")),
            ("name", text("new")),
            ("host", text("later")),
            ("region", text("eu-west")),
            ("zone", text("z1")),
        ])
    );
    assert_eq!(inject_inputs(&mut module, &outputs, &graph), Ok(()));
    assert_eq!(module, once);
}

#[test]
fn injection_stops_at_the_first_input_that_fails() {
    let (graph, mut module, outputs) = world();
    module.inputs.insert(1, ("bad".to_string(), InputValue::Ref { path: "planet.x".to_string() }));
    module.inputs.push(("worse".to_string(), InputValue::Ref { path: "db.endpoint[".to_string() }));
    assert_eq!(
        inject_inputs(&mut module, &outputs, &graph),
        Err(StackError::ReferenceNotFound("planet.x".to_string()))
    );
    assert_eq!(
        module.variables,
        dict(vec![("kept", num(1)), ("name", text("old")), ("host", text("x"))])
    );
}
