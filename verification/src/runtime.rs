//! The execution engine as a state machine: it plans a run, prepares
//! layer after layer from the outputs published so far, and takes in what
//! the execution capability reports. The caller performs the actions.

use crate::error::{ErrorModel, StackError};
use crate::graph::{is_named_plan, layer_names, ModuleGraph, ScopeModel};
use crate::resolution::{
    all_resolve, collect_all, dependency_count, dependency_edges, enriched, innermost_id,
    innermost_match, is_first_unresolved,
};
use crate::parser::{InfraFile, ModuleModel, ModuleNode};
use crate::plan::{
    depends_on, done_before, edges_in_range, has_relevant_cycle, in_layer, layer_seq,
    lemma_layer_members, lemma_needs_target_is_cycle, planned,
};
use crate::resolver::{inject_inputs, injected, OutputsMap};
use crate::terraform::TerraformAction;
use crate::value::{
    key_index, lemma_upsert_lookup, lookup, upsert, upsert_entry, Dict, Duplicate, Value,
    ValueModel,
};
use vstd::prelude::*;

verus! {

/// The engine: the dependency graph of one infrastructure definition.
#[derive(Debug)]
pub struct Runtime {
    pub graph: ModuleGraph,
}

/// A run in progress.
#[derive(Debug)]
pub struct RunState {
    /// The layers of the plan.
    pub layers: Vec<Vec<String>>,
    /// The module that the run is for.
    pub target: String,
    /// The operation requested for the target.
    pub action: TerraformAction,
    /// The outputs published so far.
    pub outputs_map: OutputsMap,
    /// How many layers have run and published.
    pub completed: usize,
    /// The modules of the layer under way, each with its inputs injected
    /// or with the error that its injection met.
    pub pending: Vec<Result<ModuleNode, StackError>>,
}

/// A failure of a run, with the module that was in flight.
#[derive(Debug, PartialEq)]
pub struct RunFailure {
    pub module_id: String,
    pub error: StackError,
}

pub struct FailureModel {
    pub module_id: Seq<char>,
    pub error: ErrorModel,
}

impl DeepView for RunFailure {
    type V = FailureModel;

    open spec fn deep_view(&self) -> FailureModel {
        FailureModel { module_id: self.module_id@, error: self.error.deep_view() }
    }
}

/// What the caller is to do next.
#[derive(Debug, PartialEq)]
pub enum Action {
    /// Initialise these modules and read their outputs, all at once, and
    /// report one result for each, in this order, when all have ended.
    RunLayer(Vec<ModuleNode>),
    /// Initialise the target, read its outputs and perform the operation.
    RunTarget(ModuleNode, TerraformAction),
    /// The run has failed before the target could be run.
    Fail(RunFailure),
}

/// A prepared module, or the error of its preparation, as mathematical
/// content.
pub open spec fn module_result(r: Result<ModuleNode, StackError>) -> Result<ModuleModel, ErrorModel> {
    match r {
        Ok(m) => Ok(m.deep_view()),
        Err(e) => Err(e.deep_view()),
    }
}

/// A list of prepared modules as mathematical content.
pub open spec fn pending_model(pending: Seq<Result<ModuleNode, StackError>>) -> Seq<
    Result<ModuleModel, ErrorModel>,
> {
    pending.map_values(|r: Result<ModuleNode, StackError>| module_result(r))
}

/// What a capability reported for one module, as mathematical content.
pub open spec fn report_model(r: Result<Vec<(String, Value)>, String>) -> Result<
    Dict<ValueModel>,
    Seq<char>,
> {
    match r {
        Ok(outputs) => Ok(outputs.deep_view()),
        Err(message) => Err(message@),
    }
}

/// A list of reports as mathematical content.
pub open spec fn reports_model(reports: Seq<Result<Vec<(String, Value)>, String>>) -> Seq<
    Result<Dict<ValueModel>, Seq<char>>,
> {
    reports.map_values(|r: Result<Vec<(String, Value)>, String>| report_model(r))
}

/// The module `id` with its inputs injected from `outputs`.
pub open spec fn prepared(
    modules: Dict<ModuleModel>,
    scopes: Dict<ScopeModel>,
    outputs: Dict<Dict<ValueModel>>,
    id: Seq<char>,
) -> Result<ModuleModel, ErrorModel> {
    match lookup(modules, id) {
        Some(m) => injected(m, outputs, scopes),
        None => Err(ErrorModel::TargetNotFound(id)),
    }
}

/// The modules of a layer, each prepared.
pub open spec fn prepared_layer(
    modules: Dict<ModuleModel>,
    scopes: Dict<ScopeModel>,
    outputs: Dict<Dict<ValueModel>>,
    layer: Seq<Seq<char>>,
) -> Seq<Result<ModuleModel, ErrorModel>> {
    Seq::new(layer.len(), |i: int| prepared(modules, scopes, outputs, layer[i]))
}

/// The modules among `pending` whose preparation succeeded, in order.
pub open spec fn runnable(pending: Seq<Result<ModuleModel, ErrorModel>>) -> Seq<ModuleModel>
    decreases pending.len(),
{
    if pending.len() == 0 {
        Seq::empty()
    } else {
        match pending.last() {
            Ok(m) => runnable(pending.drop_last()).push(m),
            Err(_) => runnable(pending.drop_last()),
        }
    }
}

/// The outputs after the first `count` modules of a layer were taken in:
/// in the order of the layer, the first module that failed, in its
/// preparation or in its run, decides; where none failed, each module's
/// outputs are published under its id. `reports` holds one entry for each
/// runnable module.
pub open spec fn merge_layer(
    ids: Seq<Seq<char>>,
    pending: Seq<Result<ModuleModel, ErrorModel>>,
    reports: Seq<Result<Dict<ValueModel>, Seq<char>>>,
    outputs: Dict<Dict<ValueModel>>,
    count: nat,
) -> Result<Dict<Dict<ValueModel>>, FailureModel>
    decreases count,
{
    if count == 0 || count > pending.len() {
        Ok(outputs)
    } else {
        match merge_layer(ids, pending, reports, outputs, (count - 1) as nat) {
            Err(e) => Err(e),
            Ok(sofar) => match pending[count - 1] {
                Err(e) => Err(FailureModel { module_id: ids[count - 1], error: e }),
                Ok(_) => match reports[runnable(pending.take(count - 1)).len() as int] {
                    Err(message) => Err(
                        FailureModel {
                            module_id: ids[count - 1],
                            error: ErrorModel::ExecutionError(message),
                        },
                    ),
                    Ok(out) => Ok(upsert(sofar, ids[count - 1], out)),
                },
            },
        }
    }
}

/// The outcome of the target's run.
pub open spec fn target_outcome(target: Seq<char>, report: Result<(), String>) -> Result<
    (),
    FailureModel,
> {
    match report {
        Ok(()) => Ok(()),
        Err(message) => Err(
            FailureModel { module_id: target, error: ErrorModel::ExecutionError(message@) },
        ),
    }
}

impl RunState {
    /// Every layer that has run has published: each of its modules has an
    /// entry among the outputs.
    pub open spec fn published(&self) -> bool {
        forall|k: int, i: int|
            0 <= k < self.completed && 0 <= i < self.layers@[k]@.len() ==> lookup(
                self.outputs_map.deep_view(),
                #[trigger] self.layers@[k]@[i]@,
            ) is Some
    }

}

impl Runtime {
    /// Builds the engine for an infrastructure definition.
    pub fn new(infra: &InfraFile) -> (res: Result<Runtime, StackError>)
        requires
            collect_all(infra.deep_view().nodes).modules.len() < u32::MAX,
            dependency_count(
                collect_all(infra.deep_view().nodes).modules,
                collect_all(infra.deep_view().nodes).modules.len(),
            ) < u32::MAX,
        ensures
            match res {
                Ok(rt) => {
                    &&& rt.graph.sound()
                    &&& all_resolve(collect_all(infra.deep_view().nodes).modules)
                    &&& rt.graph.modules_model() == enriched(
                        collect_all(infra.deep_view().nodes).modules,
                    )
                    &&& rt.graph.scopes_model() == collect_all(infra.deep_view().nodes).scopes
                    &&& rt.graph.edges() == dependency_edges(
                        collect_all(infra.deep_view().nodes).modules,
                    )
                    &&& forall|i: int, j: int, k: int| #[trigger]
                        innermost_match(collect_all(infra.deep_view().nodes).modules, i, j, k)
                            ==> rt.graph.modules_model()[i].1.dependencies[j].id == innermost_id(
                            collect_all(infra.deep_view().nodes).modules,
                            i,
                            j,
                            k,
                        )
                },
                Err(e) => {
                    &&& e matches StackError::DependencyNotFound { dependency, module_id }
                    &&& exists|i: int, j: int|
                        {
                            &&& #[trigger] is_first_unresolved(
                                collect_all(infra.deep_view().nodes).modules,
                                i,
                                j,
                            )
                            &&& dependency@ == collect_all(
                                infra.deep_view().nodes,
                            ).modules[i].1.dependencies[j].name
                            &&& module_id@ == collect_all(infra.deep_view().nodes).modules[i].1.id
                        }
                },
            },
    {
        match ModuleGraph::new(infra) {
            Ok(graph) => Ok(Runtime { graph }),
            Err(e) => Err(e),
        }
    }

    /// Plans the run for `module_id`: nothing has run, nothing is
    /// published.
    pub fn start(&self, module_id: &str, action: TerraformAction) -> (res: Result<
        RunState,
        StackError,
    >)
        ensures
            self.graph.sound(),
            match res {
                Ok(state) => {
                    &&& (key_index(self.graph.modules_model(), module_id@) matches Some(t)
                        && !has_relevant_cycle(self.graph.edges(), t) && is_named_plan(
                        self.graph.module_ids(),
                        self.graph.edges(),
                        t,
                        state.layers.deep_view(),
                    ))
                    &&& state.target@ == module_id@
                    &&& state.action == action
                    &&& state.outputs_map.deep_view() == Seq::<(Seq<char>, Dict<ValueModel>)>::empty()
                    &&& state.completed == 0
                    &&& state.pending@.len() == 0
                    &&& state.published()
                },
                Err(StackError::TargetNotFound(name)) => {
                    &&& (key_index(self.graph.modules_model(), module_id@) is None)
                    &&& name@ == module_id@
                },
                Err(StackError::CycleDetected) => (key_index(
                    self.graph.modules_model(),
                    module_id@,
                ) matches Some(t) && has_relevant_cycle(self.graph.edges(), t)),
                Err(_) => false,
            },
    {
        match self.graph.execution_layers(module_id) {
            Err(e) => Err(e),
            Ok((layers, target)) => {
                let outputs_map: OutputsMap = Vec::new();
                assert(outputs_map.deep_view() =~= Seq::empty());
                Ok(
                    RunState {
                        layers,
                        target,
                        action,
                        outputs_map,
                        completed: 0,
                        pending: Vec::new(),
                    },
                )
            },
        }
    }

    /// The module `id` with its inputs injected from the outputs published
    /// so far.
    pub fn prepare_module(&self, id: &String, outputs_map: &OutputsMap) -> (res: Result<
        ModuleNode,
        StackError,
    >)
        ensures
            module_result(res) == prepared(
                self.graph.modules_model(),
                self.graph.scopes_model(),
                outputs_map.deep_view(),
                id@,
            ),
    {
        match self.graph.get_module_by_id(id.as_str()) {
            None => Err(StackError::TargetNotFound(id.clone())),
            Some(module) => {
                let mut module = module;
                match inject_inputs(&mut module, outputs_map, &self.graph) {
                    Ok(()) => Ok(module),
                    Err(e) => Err(e),
                }
            },
        }
    }

    /// What to do next: the modules of the layer under way, prepared, or,
    /// once all layers have published, the target.
    pub fn next_action(&self, state: &mut RunState) -> (res: Action)
        requires
            old(state).completed <= old(state).layers@.len(),
        ensures
            final(state).layers == old(state).layers,
            final(state).target == old(state).target,
            final(state).action == old(state).action,
            final(state).outputs_map == old(state).outputs_map,
            final(state).completed == old(state).completed,
            old(state).completed < old(state).layers@.len() ==> {
                &&& pending_model(final(state).pending@) == prepared_layer(
                    self.graph.modules_model(),
                    self.graph.scopes_model(),
                    old(state).outputs_map.deep_view(),
                    old(state).layers@[old(state).completed as int].deep_view(),
                )
                &&& res matches Action::RunLayer(tasks)
                &&& tasks.deep_view() == runnable(pending_model(final(state).pending@))
            },
            old(state).completed == old(state).layers@.len() ==> {
                &&& final(state).pending@.len() == 0
                &&& match prepared(
                    self.graph.modules_model(),
                    self.graph.scopes_model(),
                    old(state).outputs_map.deep_view(),
                    old(state).target@,
                ) {
                    Ok(m) => (res matches Action::RunTarget(module, action) && module.deep_view()
                        == m && action == old(state).action),
                    Err(e) => (res matches Action::Fail(failure) && failure.deep_view() == (
                    FailureModel { module_id: old(state).target@, error: e })),
                }
            },
    {
        if state.completed < state.layers.len() {
            let ghost layer = state.layers@[state.completed as int].deep_view();
            let ghost modules = self.graph.modules_model();
            let ghost scopes = self.graph.scopes_model();
            let ghost outputs = state.outputs_map.deep_view();
            let mut pending: Vec<Result<ModuleNode, StackError>> = Vec::new();
            let mut tasks: Vec<ModuleNode> = Vec::new();
            let n = state.layers[state.completed].len();
            let mut i: usize = 0;
            assert(tasks.deep_view() =~= runnable(pending_model(pending@)));
            while i < n
                invariant
                    i <= n,
                    state.completed < state.layers@.len(),
                    n == state.layers@[state.completed as int]@.len(),
                    layer == state.layers@[state.completed as int].deep_view(),
                    modules == self.graph.modules_model(),
                    scopes == self.graph.scopes_model(),
                    outputs == state.outputs_map.deep_view(),
                    pending@.len() == i,
                    forall|j: int|
                        0 <= j < i ==> module_result(#[trigger] pending@[j]) == prepared(
                            modules,
                            scopes,
                            outputs,
                            layer[j],
                        ),
                    tasks.deep_view() == runnable(pending_model(pending@)),
                decreases n - i,
            {
                let id = &state.layers[state.completed][i];
                assert(layer[i as int] == id@);
                let ghost before = pending_model(pending@);
                let ghost tasks_before = tasks.deep_view();
                let one = self.prepare_module(id, &state.outputs_map);
                match &one {
                    Ok(module) => {
                        tasks.push(module.duplicate());
                        assert(tasks.deep_view() =~= tasks_before.push(module.deep_view()));
                    },
                    Err(_) => {},
                }
                pending.push(one);
                proof {
                    let after = pending_model(pending@);
                    assert(after.drop_last() =~= before);
                    assert(after.last() == module_result(one));
                }
                i += 1;
            }
            assert(pending_model(pending@) =~= prepared_layer(modules, scopes, outputs, layer));
            state.pending = pending;
            Action::RunLayer(tasks)
        } else {
            state.pending = Vec::new();
            match self.prepare_module(&state.target, &state.outputs_map) {
                Ok(module) => Action::RunTarget(module, state.action),
                Err(e) => Action::Fail(RunFailure { module_id: state.target.clone(), error: e }),
            }
        }
    }

    /// Takes in what the capability reported for the runnable modules of
    /// the layer under way, one report for each in the order in which they
    /// were handed out. Where a module failed, in its preparation or in its
    /// run, the first such failure in the order of the layer ends the run
    /// and nothing is published; else every module's outputs are published
    /// and the next layer is under way.
    #[verifier::loop_isolation(false)]
    pub fn layer_finished(
        &self,
        state: &mut RunState,
        reports: Vec<Result<Vec<(String, Value)>, String>>,
    ) -> (res: Result<(), RunFailure>)
        requires
            old(state).completed < old(state).layers@.len(),
            old(state).pending@.len() == old(state).layers@[old(state).completed as int]@.len(),
            reports@.len() == runnable(pending_model(old(state).pending@)).len(),
        ensures
            final(state).layers == old(state).layers,
            final(state).target == old(state).target,
            final(state).action == old(state).action,
            match res {
                Ok(()) => {
                    &&& merge_layer(
                        old(state).layers@[old(state).completed as int].deep_view(),
                        pending_model(old(state).pending@),
                        reports_model(reports@),
                        old(state).outputs_map.deep_view(),
                        old(state).pending@.len() as nat,
                    ) == Ok::<Dict<Dict<ValueModel>>, FailureModel>(
                        final(state).outputs_map.deep_view(),
                    )
                    &&& final(state).completed == old(state).completed + 1
                    &&& final(state).pending@.len() == 0
                    &&& old(state).published() ==> final(state).published()
                },
                Err(e) => {
                    &&& merge_layer(
                        old(state).layers@[old(state).completed as int].deep_view(),
                        pending_model(old(state).pending@),
                        reports_model(reports@),
                        old(state).outputs_map.deep_view(),
                        old(state).pending@.len() as nat,
                    ) == Err::<Dict<Dict<ValueModel>>, FailureModel>(e.deep_view())
                    &&& final(state).outputs_map == old(state).outputs_map
                    &&& final(state).completed == old(state).completed
                    &&& final(state).pending == old(state).pending
                },
            },
    {
        let ghost ids = state.layers@[state.completed as int].deep_view();
        let ghost pending = pending_model(state.pending@);
        let ghost told = reports_model(reports@);
        let ghost outputs = state.outputs_map.deep_view();
        let n = state.pending.len();
        let told_count = reports.len();
        let mut merged: OutputsMap = state.outputs_map.duplicate();
        let mut cursor: usize = 0;
        let mut i: usize = 0;
        assert(pending.take(0) =~= Seq::empty());
        while i < n
            invariant
                i <= n,
                n == state.pending@.len(),
                state.completed < state.layers@.len(),
                n == state.layers@[state.completed as int]@.len(),
                ids == state.layers@[state.completed as int].deep_view(),
                pending == pending_model(state.pending@),
                told == reports_model(reports@),
                told.len() == runnable(pending).len(),
                cursor == runnable(pending.take(i as int)).len(),
                merge_layer(ids, pending, told, outputs, i as nat) == Ok::<
                    Dict<Dict<ValueModel>>,
                    FailureModel,
                >(merged.deep_view()),
            decreases n - i,
        {
            proof {
                assert(pending.take(i + 1).drop_last() =~= pending.take(i as int));
                assert(pending.take(i + 1).last() == pending[i as int]);
                assert(pending[i as int] == module_result(state.pending@[i as int]));
                lemma_runnable_grows(pending, i + 1);
                assert(ids[i as int] == state.layers@[state.completed as int]@[i as int]@);
            }
            match &state.pending[i] {
                Err(e) => {
                    proof {
                        lemma_merge_error_stays(ids, pending, told, outputs, (i + 1) as nat, n as nat);
                    }
                    return Err(
                        RunFailure {
                            module_id: state.layers[state.completed][i].clone(),
                            error: e.clone(),
                        },
                    );
                },
                Ok(_) => {
                    assert(pending[i as int] is Ok);
                    assert(cursor < told_count);
                    assert(told[cursor as int] == report_model(reports@[cursor as int]));
                    match &reports[cursor] {
                        Err(message) => {
                            proof {
                                lemma_merge_error_stays(
                                    ids,
                                    pending,
                                    told,
                                    outputs,
                                    (i + 1) as nat,
                                    n as nat,
                                );
                            }
                            return Err(
                                RunFailure {
                                    module_id: state.layers[state.completed][i].clone(),
                                    error: StackError::ExecutionError(message.clone()),
                                },
                            );
                        },
                        Ok(out) => {
                            upsert_entry(
                                &mut merged,
                                state.layers[state.completed][i].clone(),
                                out.duplicate(),
                            );
                            cursor += 1;
                        },
                    }
                },
            }
            i += 1;
        }
        let total = state.layers.len();
        assert(state.completed < total);
        proof {
            lemma_merge_publishes(ids, pending, told, outputs, n as nat);
            if old(state).published() {
                assert forall|k: int, c: int|
                    0 <= k < state.completed + 1 && 0 <= c < state.layers@[k]@.len() implies lookup(
                    merged.deep_view(),
                    #[trigger] state.layers@[k]@[c]@,
                ) is Some by {
                    if k == state.completed {
                        assert(ids[c] == state.layers@[k]@[c]@);
                    } else {
                        assert(lookup(outputs, state.layers@[k]@[c]@) is Some);
                    }
                }
            }
        }
        state.outputs_map = merged;
        state.completed = state.completed + 1;
        state.pending = Vec::new();
        Ok(())
    }

    /// Takes in what the capability reported for the target.
    pub fn target_finished(&self, state: &RunState, report: Result<(), String>) -> (res: Result<
        (),
        RunFailure,
    >)
        ensures
            match res {
                Ok(()) => target_outcome(state.target@, report) is Ok,
                Err(e) => target_outcome(state.target@, report) == Err::<(), FailureModel>(
                    e.deep_view(),
                ),
            },
    {
        match report {
            Ok(()) => Ok(()),
            Err(message) => Err(
                RunFailure {
                    module_id: state.target.clone(),
                    error: StackError::ExecutionError(message),
                },
            ),
        }
    }
}

/// The runnable modules among the first `k` are at most those among all.
proof fn lemma_runnable_grows(pending: Seq<Result<ModuleModel, ErrorModel>>, k: int)
    requires
        0 <= k <= pending.len(),
    ensures
        runnable(pending.take(k)).len() <= runnable(pending).len(),
        k > 0 && pending[k - 1] is Ok ==> runnable(pending.take(k - 1)).len() < runnable(
            pending,
        ).len(),
    decreases pending.len() - k,
{
    if k == pending.len() {
        assert(pending.take(k) =~= pending);
        if k > 0 {
            assert(pending.take(k - 1) =~= pending.drop_last());
        }
    } else {
        lemma_runnable_grows(pending, k + 1);
        assert(pending.take(k + 1).drop_last() =~= pending.take(k));
        if k > 0 {
            assert(pending.take(k).drop_last() =~= pending.take(k - 1));
            assert(pending.take(k).last() == pending[k - 1]);
        }
    }
}

/// Once a module of the layer has failed, the layer has failed.
proof fn lemma_merge_error_stays(
    ids: Seq<Seq<char>>,
    pending: Seq<Result<ModuleModel, ErrorModel>>,
    reports: Seq<Result<Dict<ValueModel>, Seq<char>>>,
    outputs: Dict<Dict<ValueModel>>,
    at: nat,
    count: nat,
)
    requires
        at <= count <= pending.len(),
        merge_layer(ids, pending, reports, outputs, at) is Err,
    ensures
        merge_layer(ids, pending, reports, outputs, count) == merge_layer(
            ids,
            pending,
            reports,
            outputs,
            at,
        ),
    decreases count,
{
    if at < count {
        lemma_merge_error_stays(ids, pending, reports, outputs, at, (count - 1) as nat);
    }
}

/// A layer that is taken in whole publishes for each of its modules, and
/// what was published stays.
proof fn lemma_merge_publishes(
    ids: Seq<Seq<char>>,
    pending: Seq<Result<ModuleModel, ErrorModel>>,
    reports: Seq<Result<Dict<ValueModel>, Seq<char>>>,
    outputs: Dict<Dict<ValueModel>>,
    count: nat,
)
    requires
        count <= pending.len(),
        merge_layer(ids, pending, reports, outputs, count) is Ok,
    ensures
        forall|i: int|
            0 <= i < count ==> lookup(
                merge_layer(ids, pending, reports, outputs, count)->Ok_0,
                #[trigger] ids[i],
            ) is Some,
        forall|key: Seq<char>|
            lookup(outputs, key) is Some ==> #[trigger] lookup(
                merge_layer(ids, pending, reports, outputs, count)->Ok_0,
                key,
            ) is Some,
    decreases count,
{
    if count > 0 {
        let before = (count - 1) as nat;
        lemma_merge_publishes(ids, pending, reports, outputs, before);
        let sofar = merge_layer(ids, pending, reports, outputs, before)->Ok_0;
        let out = reports[runnable(pending.take(count - 1)).len() as int]->Ok_0;
        let after = upsert(sofar, ids[count - 1], out);
        assert forall|i: int| 0 <= i < count implies lookup(after, #[trigger] ids[i]) is Some by {
            lemma_upsert_lookup(sofar, ids[count - 1], out, ids[i]);
        }
        assert forall|key: Seq<char>| lookup(outputs, key) is Some implies #[trigger] lookup(
            after,
            key,
        ) is Some by {
            lemma_upsert_lookup(sofar, ids[count - 1], out, key);
        }
    }
}

/// What is done before layer `k` lies in a layer before `k`.
proof fn lemma_done_in_earlier_layer(n: nat, edges: Seq<(int, int)>, target: int, k: nat, d: int) -> (c:
    nat)
    requires
        done_before(n, edges, target, k).contains(d),
    ensures
        c < k,
        in_layer(n, edges, target, c, d),
    decreases k,
{
    if in_layer(n, edges, target, (k - 1) as nat, d) {
        (k - 1) as nat
    } else {
        lemma_done_in_earlier_layer(n, edges, target, (k - 1) as nat, d)
    }
}

/// No module starts before what it needs has published: where every
/// layer before `completed` has published, each module of the layer under
/// way, and the target once all layers have run, finds the outputs of
/// every module that it depends on.
pub proof fn lemma_needs_are_published(
    ids: Seq<Seq<char>>,
    edges: Seq<(int, int)>,
    target: int,
    layers: Seq<Seq<Seq<char>>>,
    outputs: Dict<Dict<ValueModel>>,
    completed: nat,
    v: int,
    d: int,
)
    requires
        edges_in_range(ids.len(), edges),
        0 <= target < ids.len(),
        !has_relevant_cycle(edges, target),
        is_named_plan(ids, edges, target, layers),
        completed <= layers.len(),
        forall|k: int, i: int|
            0 <= k < completed && 0 <= i < layers[k].len() ==> lookup(
                outputs,
                #[trigger] layers[k][i],
            ) is Some,
        if completed < layers.len() {
            in_layer(ids.len(), edges, target, completed, v)
        } else {
            v == target
        },
        depends_on(edges, v, d),
    ensures
        lookup(outputs, ids[d]) is Some,
{
    let n = ids.len();
    let e = choose|e: int| 0 <= e < edges.len() && edges[e] == (d, v);
    assert(0 <= edges[e].0 < n);
    crate::plan::lemma_target_relevant(edges, target);
    crate::plan::lemma_relevant_step(edges, target, v, d);
    if completed == layers.len() {
        if d == target {
            lemma_needs_target_is_cycle(edges, target, target);
        }
        assert(planned(n, edges, target, d));
    }
    assert(done_before(n, edges, target, completed).contains(d));
    let c = lemma_done_in_earlier_layer(n, edges, target, completed, d);
    lemma_layer_members(n, edges, target, c, d);
    let members = layer_seq(n, edges, target, c);
    let j = choose|j: int| 0 <= j < members.len() && members[j] == d;
    assert(layers[c as int] == layer_names(ids, edges, target, c));
    assert(layers[c as int][j] == ids[d]);
}

} // verus!
