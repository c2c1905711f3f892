use tfstacks::error::StackError;
use tfstacks::graph::{ModuleGraph, Scope};
use tfstacks::resolution::{collect_modules, resolve_dependency_id};
use tfstacks::parser::{Dependency, InfraFile, InfraNode, ModuleNode, ScopeNode};
use tfstacks::value::{Number, Value};

fn module(source: &str, id: &str, deps: &[&str], scope_ids: &[&str]) -> ModuleNode {
    ModuleNode {
        source: source.to_string(),
        id: id.to_string(),
        dependencies: deps
            .iter()
            .map(|d| Dependency { id: String::new(), name: d.to_string() })
            .collect(),
        variables: Vec::new(),
        mocked_outputs: None,
        inputs: Vec::new(),
        scope_ids: scope_ids.iter().map(|s| s.to_string()).collect(),
    }
}

fn leaf(source: &str, id: &str, deps: &[&str], scope_ids: &[&str]) -> (String, InfraNode) {
    (id.to_string(), InfraNode::Module(module(source, id, deps, scope_ids)))
}

fn scope(ty: &str, id: &str, children: Vec<(String, InfraNode)>) -> (String, InfraNode) {
    (
        id.to_string(),
        InfraNode::Scope(ScopeNode {
            scope: ty.to_string(),
            id: id.to_string(),
            variables: vec![("region".to_string(), Value::String("eu".to_string()))],
            children,
        }),
    )
}

fn infra(nodes: Vec<(String, InfraNode)>) -> InfraFile {
    InfraFile { nodes, source_defaults: Vec::new() }
}

/// One scope `acct` that holds the given modules; a module's source is its id.
fn flat(modules: &[(&str, &[&str])]) -> InfraFile {
    infra(vec![scope(
        "account",
        "acct",
        modules.iter().map(|(id, deps)| leaf(id, id, deps, &["acct"])).collect(),
    )])
}

fn names(layers: &[&[&str]]) -> Vec<Vec<String>> {
    layers.iter().map(|l| l.iter().map(|s| s.to_string()).collect()).collect()
}

fn position(order: &[String], id: &str) -> usize {
    order.iter().position(|x| x == id).unwrap()
}

#[test]
fn chain_of_three_gives_two_layers() {
    let graph = ModuleGraph::new(&flat(&[("app", &["db"]), ("db", &["vpc"]), ("vpc", &[])])).unwrap();
    let (layers, target) = graph.execution_layers("app").unwrap();
    assert_eq!(layers, names(&[&["vpc"], &["db"]]));
    assert_eq!(target, "app");
}

#[test]
fn target_without_dependencies_has_no_layers() {
    let graph = ModuleGraph::new(&flat(&[("app", &["db"]), ("db", &["vpc"]), ("vpc", &[])])).unwrap();
    let (layers, target) = graph.execution_layers("vpc").unwrap();
    assert_eq!(layers, Vec::<Vec<String>>::new());
    assert_eq!(target, "vpc");
}

#[test]
fn only_what_the_target_needs_is_planned() {
    let graph = ModuleGraph::new(&flat(&[
        ("vpc", &[]),
        ("db", &["vpc"]),
        ("app", &["db"]),
        ("other", &["app"]),
        ("alone", &[]),
    ]))
    .unwrap();
    let (layers, target) = graph.execution_layers("db").unwrap();
    assert_eq!(layers, names(&[&["vpc"]]));
    assert_eq!(target, "db");
}

#[test]
fn diamond_puts_independent_modules_in_one_layer() {
    let graph = ModuleGraph::new(&flat(&[
        ("top", &["left", "right"]),
        ("right", &["base"]),
        ("left", &["base"]),
        ("base", &[]),
    ]))
    .unwrap();
    let (layers, target) = graph.execution_layers("top").unwrap();
    assert_eq!(layers, names(&[&["base"], &["right", "left"]]));
    assert_eq!(target, "top");
}

#[test]
fn a_module_waits_for_its_deepest_dependency() {
    let graph = ModuleGraph::new(&flat(&[
        ("a", &[]),
        ("b", &["a"]),
        ("c", &["a", "b"]),
        ("d", &["a"]),
        ("t", &["c", "d"]),
    ]))
    .unwrap();
    let (layers, _) = graph.execution_layers("t").unwrap();
    assert_eq!(layers, names(&[&["a"], &["b", "d"], &["c"]]));
}

#[test]
fn layers_then_target_is_a_topological_order() {
    let declared: Vec<(&str, &[&str])> = vec![
        ("t", &["m1", "m2", "m5"]),
        ("m1", &["m3"]),
        ("m2", &["m3", "m4"]),
        ("m3", &["m6"]),
        ("m4", &["m6"]),
        ("m5", &[]),
        ("m6", &[]),
        ("unrelated", &["t"]),
    ];
    let graph = ModuleGraph::new(&flat(&declared)).unwrap();
    let (layers, target) = graph.execution_layers("t").unwrap();
    let mut order: Vec<String> = layers.iter().flatten().cloned().collect();
    order.push(target);
    assert_eq!(order.len(), 7);
    for (id, deps) in &declared {
        if *id == "unrelated" {
            assert!(!order.contains(&id.to_string()));
            continue;
        }
        for dep in deps.iter() {
            assert!(position(&order, dep) < position(&order, id), "{} before {}", dep, id);
        }
    }
    assert_eq!(order.last().unwrap(), "t");
}

#[test]
fn unknown_target_is_reported() {
    let graph = ModuleGraph::new(&flat(&[("app", &[])])).unwrap();
    assert_eq!(
        graph.execution_layers("nope"),
        Err(StackError::TargetNotFound("nope".to_string()))
    );
}

#[test]
fn cycle_through_the_target_is_detected() {
    let graph = ModuleGraph::new(&flat(&[("a", &["b"]), ("b", &["a"])])).unwrap();
    assert_eq!(graph.execution_layers("a"), Err(StackError::CycleDetected));
    assert_eq!(graph.execution_layers("b"), Err(StackError::CycleDetected));
}

#[test]
fn module_that_depends_on_itself_is_a_cycle() {
    let graph = ModuleGraph::new(&flat(&[("a", &["a"])])).unwrap();
    assert_eq!(graph.execution_layers("a"), Err(StackError::CycleDetected));
}

#[test]
fn cycle_among_dependencies_is_detected() {
    let graph = ModuleGraph::new(&flat(&[
        ("t", &["x"]),
        ("x", &["y"]),
        ("y", &["z"]),
        ("z", &["x"]),
    ]))
    .unwrap();
    assert_eq!(graph.execution_layers("t"), Err(StackError::CycleDetected));
}

#[test]
fn cycle_is_detected_whatever_the_order_of_declaration() {
    let forward = ModuleGraph::new(&flat(&[("t", &["x", "ok"]), ("ok", &[]), ("x", &["y"]), ("y", &["x"])]));
    let backward = ModuleGraph::new(&flat(&[("y", &["x"]), ("x", &["y"]), ("ok", &[]), ("t", &["ok", "x"])]));
    assert_eq!(forward.unwrap().execution_layers("t"), Err(StackError::CycleDetected));
    assert_eq!(backward.unwrap().execution_layers("t"), Err(StackError::CycleDetected));
}

#[test]
fn cycle_that_the_target_does_not_need_is_ignored() {
    let graph = ModuleGraph::new(&flat(&[
        ("t", &["d"]),
        ("d", &[]),
        ("x", &["y", "t"]),
        ("y", &["x"]),
    ]))
    .unwrap();
    let (layers, target) = graph.execution_layers("t").unwrap();
    assert_eq!(layers, names(&[&["d"]]));
    assert_eq!(target, "t");
    assert_eq!(graph.execution_layers("x"), Err(StackError::CycleDetected));
}

#[test]
fn dependency_declared_twice_is_planned_once() {
    let graph = ModuleGraph::new(&flat(&[("t", &["d", "d"]), ("d", &[])])).unwrap();
    let (layers, _) = graph.execution_layers("t").unwrap();
    assert_eq!(layers, names(&[&["d"]]));
}

fn nested() -> InfraFile {
    infra(vec![scope(
        "account",
        "a",
        vec![
            leaf("db", "a.db", &[], &["a"]),
            scope(
                "tenant",
                "a.b",
                vec![
                    leaf("db", "a.b.db", &[], &["a", "a.b"]),
                    scope(
                        "env",
                        "a.b.c",
                        vec![
                            leaf("db", "a.b.c.db", &[], &["a", "a.b", "a.b.c"]),
                            leaf("app", "a.b.c.app", &["db"], &["a", "a.b", "a.b.c"]),
                        ],
                    ),
                    leaf("app", "a.b.app", &["db"], &["a", "a.b"]),
                ],
            ),
            leaf("app", "a.app", &["db"], &["a"]),
        ],
    )])
}

#[test]
fn innermost_scope_takes_precedence() {
    let graph = ModuleGraph::new(&nested()).unwrap();
    let inner = graph.get_module_by_id("a.b.c.app").unwrap();
    assert_eq!(
        inner.dependencies,
        vec![Dependency { id: "a.b.c.db".to_string(), name: "db".to_string() }]
    );
    let (layers, target) = graph.execution_layers("a.b.c.app").unwrap();
    assert_eq!(layers, names(&[&["a.b.c.db"]]));
    assert_eq!(target, "a.b.c.app");
}

#[test]
fn of_three_nested_scopes_with_a_module_each_the_innermost_gives_the_dependency() {
    for module_first in [true, false] {
        let mut in_c = vec![
            leaf("s", "a.b.c.s", &[], &["a", "a.b", "a.b.c"]),
            leaf("m", "a.b.c.m", &["s"], &["a", "a.b", "a.b.c"]),
        ];
        let mut in_b = vec![leaf("s", "a.b.s", &[], &["a", "a.b"])];
        let mut in_a = vec![leaf("s", "a.s", &[], &["a"])];
        if !module_first {
            in_c.reverse();
        }
        in_b.insert(if module_first { 1 } else { 0 }, scope("env", "a.b.c", in_c));
        in_a.insert(if module_first { 1 } else { 0 }, scope("tenant", "a.b", in_b));
        let graph = ModuleGraph::new(&infra(vec![scope("account", "a", in_a)])).unwrap();
        assert_eq!(
            graph.get_module_by_id("a.b.c.m").unwrap().dependencies,
            vec![Dependency { id: "a.b.c.s".to_string(), name: "s".to_string() }]
        );
        let (layers, target) = graph.execution_layers("a.b.c.m").unwrap();
        assert_eq!(layers, names(&[&["a.b.c.s"]]));
        assert_eq!(target, "a.b.c.m");
    }
}

#[test]
fn a_module_sees_its_own_scope_before_the_outer_ones() {
    let graph = ModuleGraph::new(&nested()).unwrap();
    // Within a scope the first module of the source, in tree order, is taken; the scope `a.b`
    // holds `a.b.db` before the modules of the nested scope `a.b.c`.
    let middle = graph.get_module_by_id("a.b.app").unwrap();
    assert_eq!(middle.dependencies[0].id, "a.b.db");
    let outer = graph.get_module_by_id("a.app").unwrap();
    assert_eq!(outer.dependencies[0].id, "a.db");
}

#[test]
fn outer_scope_is_used_where_the_inner_ones_hold_no_match() {
    let file = infra(vec![scope(
        "account",
        "a",
        vec![
            leaf("vpc", "a.vpc", &[], &["a"]),
            scope("tenant", "a.b", vec![leaf("app", "a.b.app", &["vpc"], &["a", "a.b"])]),
        ],
    )]);
    let graph = ModuleGraph::new(&file).unwrap();
    assert_eq!(graph.get_module_by_id("a.b.app").unwrap().dependencies[0].id, "a.vpc");
    let (layers, _) = graph.execution_layers("a.b.app").unwrap();
    assert_eq!(layers, names(&[&["a.vpc"]]));
}

#[test]
fn a_module_is_seen_through_a_shared_enclosing_scope_only() {
    let file = infra(vec![scope(
        "account",
        "a",
        vec![
            scope("tenant", "a.x", vec![leaf("vpc", "a.x.vpc", &[], &["a", "a.x"])]),
            scope("tenant", "a.y", vec![leaf("app", "a.y.app", &["vpc"], &["a", "a.y"])]),
        ],
    )]);
    // `a.x.vpc` lies in scope `a`, which encloses `a.y.app`: scopes hold all that is nested in them.
    let graph = ModuleGraph::new(&file).unwrap();
    assert_eq!(graph.get_module_by_id("a.y.app").unwrap().dependencies[0].id, "a.x.vpc");
    let apart = infra(vec![
        scope("account", "x", vec![leaf("vpc", "x.vpc", &[], &["x"])]),
        scope("account", "y", vec![leaf("app", "y.app", &["vpc"], &["y"])]),
    ]);
    assert_eq!(
        ModuleGraph::new(&apart).err(),
        Some(StackError::DependencyNotFound {
            dependency: "vpc".to_string(),
            module_id: "y.app".to_string()
        })
    );
}

#[test]
fn missing_dependency_names_the_dependency_and_the_module() {
    let file = flat(&[("vpc", &[]), ("app", &["vpc", "cache"]), ("web", &["nothing"])]);
    assert_eq!(
        ModuleGraph::new(&file).err(),
        Some(StackError::DependencyNotFound {
            dependency: "cache".to_string(),
            module_id: "app".to_string()
        })
    );
}

#[test]
fn module_at_the_root_can_resolve_nothing() {
    let file = infra(vec![leaf("vpc", "vpc", &[], &[]), leaf("app", "app", &["vpc"], &[])]);
    assert_eq!(
        ModuleGraph::new(&file).err(),
        Some(StackError::DependencyNotFound {
            dependency: "vpc".to_string(),
            module_id: "app".to_string()
        })
    );
}

#[test]
fn resolve_dependency_id_scans_scopes_innermost_first() {
    let modules = vec![
        ("outer".to_string(), module("db", "outer", &[], &["a"])),
        ("inner".to_string(), module("db", "inner", &[], &["a", "b"])),
        ("second".to_string(), module("db", "second", &[], &["a", "b"])),
    ];
    let asking = module("app", "app", &["db"], &["a", "b"]);
    assert_eq!(resolve_dependency_id(&asking, "db", &modules), Ok("inner".to_string()));
    let above = module("app", "app2", &["db"], &["a"]);
    assert_eq!(resolve_dependency_id(&above, "db", &modules), Ok("outer".to_string()));
    assert_eq!(
        resolve_dependency_id(&above, "vpc", &modules),
        Err(StackError::DependencyNotFound {
            dependency: "vpc".to_string(),
            module_id: "app2".to_string()
        })
    );
}

#[test]
fn collect_modules_flattens_a_tree() {
    let (_, root) = scope(
        "account",
        "a",
        vec![
            leaf("vpc", "a.vpc", &[], &["a"]),
            scope("tenant", "a.b", vec![leaf("db", "a.b.db", &[], &["a", "a.b"])]),
        ],
    );
    let mut modules = Vec::new();
    let mut scopes = Vec::new();
    collect_modules(&root, &mut modules, &mut scopes);
    let module_ids: Vec<&str> = modules.iter().map(|(k, _)| k.as_str()).collect();
    let scope_ids: Vec<&str> = scopes.iter().map(|(k, _)| k.as_str()).collect();
    assert_eq!(module_ids, vec!["a.vpc", "a.b.db"]);
    assert_eq!(scope_ids, vec!["a", "a.b"]);
    assert_eq!(scopes[1].1.name, "tenant");
}

#[test]
fn collect_modules_keeps_the_later_of_two_nodes_with_one_id() {
    let mut first = module("vpc", "same", &[], &["a"]);
    first.variables.push(("n".to_string(), Value::Number(Number::PosInt(1))));
    let second = module("db", "same", &[], &["a"]);
    let mut modules = Vec::new();
    let mut scopes = Vec::new();
    collect_modules(&InfraNode::Module(first), &mut modules, &mut scopes);
    collect_modules(&InfraNode::Module(second.clone()), &mut modules, &mut scopes);
    assert_eq!(modules, vec![("same".to_string(), second)]);
}

#[test]
fn graph_hands_out_modules_and_scopes() {
    let graph = ModuleGraph::new(&nested()).unwrap();
    assert_eq!(graph.get_module_by_id("missing"), None);
    assert_eq!(graph.get_scope_by_id("missing"), None);
    assert_eq!(
        graph.get_scope_by_id("a.b"),
        Some(Scope {
            name: "tenant".to_string(),
            variables: vec![("region".to_string(), Value::String("eu".to_string()))],
        })
    );
    let ids: Vec<String> = ModuleGraph::new(&nested()).unwrap().modules().into_iter().map(|(k, _)| k).collect();
    assert_eq!(ids, vec!["a.db", "a.b.db", "a.b.c.db", "a.b.c.app", "a.b.app", "a.app"]);
    let scopes: Vec<String> = graph.scopes().into_iter().map(|(k, _)| k).collect();
    assert_eq!(scopes, vec!["a", "a.b", "a.b.c"]);
}
