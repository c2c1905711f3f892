use tfstacks::error::StackError;
use tfstacks::parser::{Dependency, InfraFile, InfraNode, InputValue, ModuleNode, ScopeNode};
use tfstacks::runtime::{Action, RunFailure, RunState, Runtime};
use tfstacks::terraform::{MockRunner, TerraformAction, TerraformRunner};
use tfstacks::value::{Number, Value};

fn text(s: &str) -> Value {
    Value::String(s.to_string())
}

fn dict(entries: Vec<(&str, Value)>) -> Vec<(String, Value)> {
    entries.into_iter().map(|(k, v)| (k.to_string(), v)).collect()
}

fn module(id: &str, deps: &[&str], inputs: Vec<(&str, InputValue)>, outputs: Vec<(&str, Value)>) -> (String, InfraNode) {
    (
        id.to_string(),
        InfraNode::Module(ModuleNode {
            source: id.to_string(),
            id: id.to_string(),
            dependencies: deps.iter().map(|d| Dependency { id: String::new(), name: d.to_string() }).collect(),
            variables: Vec::new(),
            mocked_outputs: if outputs.is_empty() { None } else { Some(dict(outputs)) },
            inputs: inputs.into_iter().map(|(k, v)| (k.to_string(), v)).collect(),
            scope_ids: vec!["acct".to_string()],
        }),
    )
}

fn failure(module_id: &str, error: StackError) -> RunFailure {
    RunFailure { module_id: module_id.to_string(), error }
}

fn reference(path: &str) -> InputValue {
    InputValue::Ref { path: path.to_string() }
}

fn stack(modules: Vec<(String, InfraNode)>) -> InfraFile {
    InfraFile {
        nodes: vec![(
            "acct".to_string(),
            InfraNode::Scope(ScopeNode {
                scope: "account".to_string(),
                id: "acct".to_string(),
                variables: dict(vec![("region", text("eu"))]),
                children: modules,
            }),
        )],
        source_defaults: Vec::new(),
    }
}

fn three() -> InfraFile {
    stack(vec![
        module("vpc", &[], vec![("region", reference("account.region"))], vec![("cidr", text("10.0.0.0/16"))]),
        module("db", &["vpc"], vec![("net", reference("vpc.cidr"))], vec![("host", text("db.local"))]),
        module("app", &["db"], vec![("db_host", reference("db.host")), ("debug", InputValue::Default(Value::Bool(true)))], vec![]),
    ])
}

/// Drives a run with the mock runner, as a caller would; returns the ids in the order in
/// which they were handed out, and the outcome.
fn drive(runtime: &Runtime, target: &str) -> (Vec<Vec<String>>, Option<ModuleNode>, Result<(), RunFailure>) {
    let mut handed_out = Vec::new();
    let mut state = match runtime.start(target, TerraformAction::Apply) {
        Ok(state) => state,
        Err(e) => return (handed_out, None, Err(failure(target, e))),
    };
    loop {
        match runtime.next_action(&mut state) {
            Action::RunLayer(tasks) => {
                handed_out.push(tasks.iter().map(|m| m.id.clone()).collect());
                let reports = tasks.iter().map(|m| Ok(MockRunner.output(m))).collect();
                if let Err(e) = runtime.layer_finished(&mut state, reports) {
                    return (handed_out, None, Err(e));
                }
            }
            Action::RunTarget(module, action) => {
                assert_eq!(action, TerraformAction::Apply);
                let outcome = runtime.target_finished(&state, Ok(()));
                return (handed_out, Some(module), outcome);
            }
            Action::Fail(e) => return (handed_out, None, Err(e)),
        }
    }
}

#[test]
fn run_walks_the_layers_and_ends_with_the_target() {
    let runtime = Runtime::new(&three()).unwrap();
    let (handed_out, target, outcome) = drive(&runtime, "app");
    assert_eq!(outcome, Ok(()));
    assert_eq!(handed_out, vec![vec!["vpc".to_string()], vec!["db".to_string()]]);
    let target = target.unwrap();
    assert_eq!(target.id, "app");
    assert_eq!(target.variables, dict(vec![("db_host", text("db.local")), ("debug", Value::Bool(true))]));
}

#[test]
fn modules_of_a_layer_get_their_inputs_from_earlier_layers() {
    let runtime = Runtime::new(&three()).unwrap();
    let mut state = runtime.start("app", TerraformAction::Plan).unwrap();
    assert_eq!(state.completed, 0);
    assert!(state.outputs_map.is_empty());
    let first = match runtime.next_action(&mut state) {
        Action::RunLayer(tasks) => tasks,
        other => panic!("unexpected: {:?}", other),
    };
    assert_eq!(first.len(), 1);
    assert_eq!(first[0].variables, dict(vec![("region", text("eu"))]));
    runtime.layer_finished(&mut state, vec![Ok(dict(vec![("cidr", text("10.1.0.0/16"))]))]).unwrap();
    assert_eq!(state.completed, 1);
    assert_eq!(state.outputs_map, vec![("vpc".to_string(), dict(vec![("cidr", text("10.1.0.0/16"))]))]);
    let second = match runtime.next_action(&mut state) {
        Action::RunLayer(tasks) => tasks,
        other => panic!("unexpected: {:?}", other),
    };
    assert_eq!(second[0].id, "db");
    assert_eq!(second[0].variables, dict(vec![("net", text("10.1.0.0/16"))]));
    runtime.layer_finished(&mut state, vec![Ok(dict(vec![("host", text("h"))]))]).unwrap();
    assert_eq!(state.completed, 2);
    match runtime.next_action(&mut state) {
        Action::RunTarget(module, action) => {
            assert_eq!(module.variables, dict(vec![("db_host", text("h")), ("debug", Value::Bool(true))]));
            assert_eq!(action, TerraformAction::Plan);
        }
        other => panic!("unexpected: {:?}", other),
    }
}

#[test]
fn failure_of_the_capability_ends_the_run_and_publishes_nothing() {
    let file = stack(vec![
        module("a", &[], vec![], vec![]),
        module("b", &[], vec![], vec![]),
        module("c", &[], vec![], vec![]),
        module("t", &["a", "b", "c"], vec![], vec![]),
    ]);
    let runtime = Runtime::new(&file).unwrap();
    let mut state: RunState = runtime.start("t", TerraformAction::Apply).unwrap();
    match runtime.next_action(&mut state) {
        Action::RunLayer(tasks) => assert_eq!(tasks.len(), 3),
        other => panic!("unexpected: {:?}", other),
    }
    let reports = vec![
        Ok(dict(vec![("x", text("1"))])),
        Err("init failed".to_string()),
        Err("later".to_string()),
    ];
    assert_eq!(
        runtime.layer_finished(&mut state, reports),
        Err(failure("b", StackError::ExecutionError("init failed".to_string())))
    );
    assert_eq!(state.pending.len(), 3);
    assert!(state.outputs_map.is_empty());
    assert_eq!(state.completed, 0);
}

#[test]
fn failed_injection_keeps_the_module_from_running_and_ends_the_run() {
    let file = stack(vec![
        module("a", &[], vec![], vec![("x", text("1"))]),
        module("b", &[], vec![("v", reference("planet.name"))], vec![]),
        module("c", &[], vec![], vec![("y", text("2"))]),
        module("t", &["a", "b", "c"], vec![], vec![]),
    ]);
    let runtime = Runtime::new(&file).unwrap();
    let mut state = runtime.start("t", TerraformAction::Apply).unwrap();
    let tasks = match runtime.next_action(&mut state) {
        Action::RunLayer(tasks) => tasks,
        other => panic!("unexpected: {:?}", other),
    };
    let ids: Vec<&str> = tasks.iter().map(|m| m.id.as_str()).collect();
    assert_eq!(ids, vec!["a", "c"]);
    assert_eq!(state.pending.len(), 3);
    let reports = tasks.iter().map(|m| Ok(MockRunner.output(m))).collect();
    assert_eq!(
        runtime.layer_finished(&mut state, reports),
        Err(failure("b", StackError::ReferenceNotFound("planet.name".to_string())))
    );
    assert!(state.outputs_map.is_empty());
}

#[test]
fn the_earlier_failure_in_layer_order_decides() {
    let file = stack(vec![
        module("a", &[], vec![], vec![]),
        module("b", &[], vec![("v", reference("planet.name"))], vec![]),
        module("t", &["a", "b"], vec![], vec![]),
    ]);
    let runtime = Runtime::new(&file).unwrap();
    let mut state = runtime.start("t", TerraformAction::Apply).unwrap();
    let tasks = match runtime.next_action(&mut state) {
        Action::RunLayer(tasks) => tasks,
        other => panic!("unexpected: {:?}", other),
    };
    assert_eq!(tasks.len(), 1);
    assert_eq!(
        runtime.layer_finished(&mut state, vec![Err("boom".to_string())]),
        Err(failure("a", StackError::ExecutionError("boom".to_string())))
    );
}

#[test]
fn target_whose_inputs_do_not_resolve_is_not_run() {
    let file = stack(vec![module("t", &[], vec![("v", reference("planet.name"))], vec![])]);
    let runtime = Runtime::new(&file).unwrap();
    let (handed_out, target, outcome) = drive(&runtime, "t");
    assert!(handed_out.is_empty());
    assert_eq!(target, None);
    assert_eq!(outcome, Err(failure("t", StackError::ReferenceNotFound("planet.name".to_string()))));
}

#[test]
fn failure_of_the_target_is_an_execution_error() {
    let runtime = Runtime::new(&three()).unwrap();
    let state = runtime.start("app", TerraformAction::Destroy).unwrap();
    assert_eq!(
        runtime.target_finished(&state, Err("apply failed".to_string())),
        Err(failure("app", StackError::ExecutionError("apply failed".to_string())))
    );
    assert_eq!(runtime.target_finished(&state, Ok(())), Ok(()));
}

#[test]
fn missing_dependency_fails_before_anything_runs() {
    let file = stack(vec![module("app", &["cache"], vec![], vec![])]);
    assert_eq!(
        Runtime::new(&file).err(),
        Some(StackError::DependencyNotFound {
            dependency: "cache".to_string(),
            module_id: "app".to_string()
        })
    );
}

#[test]
fn start_reports_what_planning_reports() {
    let runtime = Runtime::new(&stack(vec![module("a", &["b"], vec![], vec![]), module("b", &["a"], vec![], vec![])])).unwrap();
    assert_eq!(runtime.start("a", TerraformAction::Apply).err(), Some(StackError::CycleDetected));
    assert_eq!(
        runtime.start("zzz", TerraformAction::Apply).err(),
        Some(StackError::TargetNotFound("zzz".to_string()))
    );
}

#[test]
fn prepare_module_injects_from_the_given_outputs() {
    let runtime = Runtime::new(&three()).unwrap();
    let outputs = vec![("vpc".to_string(), dict(vec![("cidr", Value::Number(Number::PosInt(4)))]))];
    let db = runtime.prepare_module(&"db".to_string(), &outputs).unwrap();
    assert_eq!(db.variables, dict(vec![("net", Value::Number(Number::PosInt(4)))]));
    assert_eq!(
        runtime.prepare_module(&"db".to_string(), &Vec::new()),
        Err(StackError::ReferenceNotFound("vpc.cidr".to_string()))
    );
    assert_eq!(
        runtime.prepare_module(&"ghost".to_string(), &outputs),
        Err(StackError::TargetNotFound("ghost".to_string()))
    );
}

#[test]
fn mock_runner_shows_canned_outputs() {
    let with = match module("m", &[], vec![], vec![("k", text("v"))]).1 {
        InfraNode::Module(m) => m,
        _ => unreachable!(),
    };
    let without = match module("m", &[], vec![], vec![]).1 {
        InfraNode::Module(m) => m,
        _ => unreachable!(),
    };
    assert_eq!(MockRunner.output(&with), dict(vec![("k", text("v"))]));
    assert_eq!(MockRunner.output(&without), Vec::new());
}

#[test]
fn terraform_runner_keeps_its_paths() {
    let runner = TerraformRunner::new("terraform".into(), "/tmp/cache".into(), "modules".into());
    assert_eq!(runner.bin_path.to_str(), Some("terraform"));
    assert_eq!(runner.cache_dir.to_str(), Some("/tmp/cache"));
    assert_eq!(runner.modules_dir.to_str(), Some("modules"));
}

#[test]
fn variables_become_environment_entries() {
    let vars = dict(vec![
        ("name", text("plain text")),
        ("count", Value::Number(Number::PosInt(3))),
        ("tags", Value::Sequence(vec![text("a")])),
    ]);
    let encoded = vec!["\"plain text\"".to_string(), "3".to_string(), "[\"a\"]".to_string()];
    assert_eq!(
        TerraformRunner::tf_var_env(&vars, &encoded),
        vec![
            ("TF_VAR_name".to_string(), "plain text".to_string()),
            ("TF_VAR_count".to_string(), "3".to_string()),
            ("TF_VAR_tags".to_string(), "[\"a\"]".to_string()),
        ]
    );
    let twice = dict(vec![("n", text("first")), ("n", text("second"))]);
    assert_eq!(
        TerraformRunner::tf_var_env(&twice, &vec![String::new(), String::new()]),
        vec![("TF_VAR_n".to_string(), "second".to_string())]
    );
}
