//! The module dependency graph and the query for a target's execution
//! layers.

use crate::digraph::{
    graph_add_edge, graph_add_node, graph_edges, graph_new, graph_node_indices,
    graph_node_weight, graph_nodes,
};
use crate::error::StackError;
use crate::layering::layers_as_ints;
use crate::parser::{Dependency, DependencyModel, InfraFile, ModuleModel, ModuleNode};
use crate::plan::{
    all_planned, edges_in_range, execution_order, has_relevant_cycle, is_plan, layer_seq,
    lemma_layer_members, lemma_plan_is_topological_order, relevant, respects_dependencies,
};
use crate::planner::plan_layers;
use crate::resolution::{
    all_resolve, collect_all, collect_children, collect_modules, collected, dependency_count,
    dependency_edges, edges_upto, enriched, enriched_dependencies, enriched_module,
    innermost_id, innermost_match, is_first_unresolved, keyed_by_id, lemma_collect_keyed,
    lemma_dependency_count_grows, lemma_dependency_gets_innermost_module, lemma_edge_count,
    module_edges, resolve_dependency_id, resolved_index, resolves,
};
use crate::toposort::as_ints;
use crate::value::{
    distinct_keys, find_key, key_index, keys, lemma_distinct_key_index, lemma_key_index, lookup,
    Dict, Duplicate, Value, ValueModel,
};
use petgraph::graph::DiGraph;
use vstd::prelude::*;

verus! {

/// A scope as the graph keeps it: its type name and its variables.
#[derive(Debug, PartialEq)]
pub struct Scope {
    pub name: String,
    pub variables: Vec<(String, Value)>,
}

pub struct ScopeModel {
    pub name: Seq<char>,
    pub variables: Dict<ValueModel>,
}

impl DeepView for Scope {
    type V = ScopeModel;

    open spec fn deep_view(&self) -> ScopeModel {
        ScopeModel { name: self.name@, variables: self.variables.deep_view() }
    }
}

impl Duplicate for Scope {
    fn duplicate(&self) -> (res: Scope) {
        Scope { name: self.name.clone(), variables: self.variables.duplicate() }
    }
}

impl Clone for Scope {
    fn clone(&self) -> (res: Scope)
        ensures
            res.deep_view() == self.deep_view(),
    {
        self.duplicate()
    }
}

/// The dependency graph of an infrastructure definition, with its modules
/// and scopes by id.
#[derive(Debug)]
pub struct ModuleGraph {
    mod_dependency_graph: DiGraph<String, ()>,
    modules: Vec<(String, ModuleNode)>,
    scopes: Vec<(String, Scope)>,
}

/// From a node index to the id of its module.
pub open spec fn name_of(ids: Seq<Seq<char>>) -> spec_fn(int) -> Seq<char> {
    |v: int| ids[v]
}

/// The names of the modules of layer `k`.
pub open spec fn layer_names(ids: Seq<Seq<char>>, edges: Seq<(int, int)>, target: int, k: nat) -> Seq<
    Seq<char>,
> {
    layer_seq(ids.len(), edges, target, k).map_values(name_of(ids))
}

/// The first `count` layers, by node index.
pub open spec fn index_layers(n: nat, edges: Seq<(int, int)>, target: int, count: nat) -> Seq<
    Seq<int>,
> {
    Seq::new(count, |k: int| layer_seq(n, edges, target, k as nat))
}

/// Naming the modules of layers and laying the layers end to end can be
/// done in either order.
proof fn lemma_flatten_names(
    ids: Seq<Seq<char>>,
    plan: Seq<Seq<int>>,
    named: Seq<Seq<Seq<char>>>,
    k: int,
)
    requires
        named.len() == plan.len(),
        0 <= k <= plan.len(),
        forall|c: int| 0 <= c < plan.len() ==> #[trigger] named[c] == plan[c].map_values(name_of(ids)),
    ensures
        named.take(k).flatten() == plan.take(k).flatten().map_values(name_of(ids)),
    decreases k,
{
    if k == 0 {
        assert(named.take(0) =~= Seq::<Seq<Seq<char>>>::empty());
        assert(plan.take(0) =~= Seq::<Seq<int>>::empty());
        assert(named.take(0).flatten() =~= plan.take(0).flatten().map_values(name_of(ids)));
    } else {
        lemma_flatten_names(ids, plan, named, k - 1);
        assert(named.take(k) =~= named.take(k - 1).push(named[k - 1]));
        assert(plan.take(k) =~= plan.take(k - 1).push(plan[k - 1]));
        named.take(k - 1).lemma_flatten_push(named[k - 1]);
        plan.take(k - 1).lemma_flatten_push(plan[k - 1]);
        assert(named.take(k).flatten() =~= plan.take(k).flatten().map_values(name_of(ids)));
    }
}

/// The layers of a plan, laid end to end with the target last, name the
/// modules of a topological order of what the target needs: the index
/// order behind the names lists the target and its transitive
/// dependencies, each once, and every module in it stands strictly after
/// each module that it depends on.
pub proof fn lemma_execution_order_is_topological(
    ids: Seq<Seq<char>>,
    edges: Seq<(int, int)>,
    target: int,
    layers: Seq<Seq<Seq<char>>>,
)
    requires
        edges_in_range(ids.len(), edges),
        0 <= target < ids.len(),
        !has_relevant_cycle(edges, target),
        is_named_plan(ids, edges, target, layers),
    ensures
        is_plan(ids.len(), edges, target, index_layers(ids.len(), edges, target, layers.len())),
        layers.flatten().push(ids[target]) == execution_order(
            index_layers(ids.len(), edges, target, layers.len()),
            target,
        ).map_values(name_of(ids)),
        respects_dependencies(
            edges,
            target,
            execution_order(index_layers(ids.len(), edges, target, layers.len()), target),
        ),
        execution_order(
            index_layers(ids.len(), edges, target, layers.len()),
            target,
        ).no_duplicates(),
        forall|v: int|
            #[trigger] execution_order(
                index_layers(ids.len(), edges, target, layers.len()),
                target,
            ).contains(v) <==> 0 <= v < ids.len() && relevant(edges, target, v),
{
    let n = ids.len();
    let plan = index_layers(n, edges, target, layers.len());
    assert forall|k: int| 0 <= k < plan.len() implies #[trigger] plan[k] == layer_seq(
        n,
        edges,
        target,
        k as nat,
    ) && plan[k].len() > 0 by {
        assert(layers[k].len() > 0);
    }
    lemma_plan_is_topological_order(n, edges, target, plan);
    lemma_flatten_names(ids, plan, layers, plan.len() as int);
    assert(layers.take(plan.len() as int) =~= layers);
    assert(plan.take(plan.len() as int) =~= plan);
    assert(layers.flatten().push(ids[target]) =~= execution_order(plan, target).map_values(
        name_of(ids),
    ));
}

/// `layers` is the execution plan for `target`, by module id.
pub open spec fn is_named_plan(
    ids: Seq<Seq<char>>,
    edges: Seq<(int, int)>,
    target: int,
    layers: Seq<Seq<Seq<char>>>,
) -> bool {
    &&& forall|k: int|
        0 <= k < layers.len() ==> #[trigger] layers[k] == layer_names(ids, edges, target, k as nat)
            && layers[k].len() > 0
    &&& all_planned(ids.len(), edges, target, layers.len())
}

impl ModuleGraph {
    /// The modules by id, in the order of the graph's nodes.
    pub closed spec fn modules_model(&self) -> Dict<ModuleModel> {
        self.modules.deep_view()
    }

    /// The scopes by id.
    pub closed spec fn scopes_model(&self) -> Dict<ScopeModel> {
        self.scopes.deep_view()
    }

    /// The ids of the modules, by node index.
    pub open spec fn module_ids(&self) -> Seq<Seq<char>> {
        keys(self.modules_model())
    }

    /// The edges of the graph: `(d, v)` where module `v` depends on `d`.
    pub closed spec fn edges(&self) -> Seq<(int, int)> {
        graph_edges(self.mod_dependency_graph)
    }

    /// The graph's nodes are its modules, no id occurs twice, and every
    /// edge joins two of them.
    #[verifier::type_invariant]
    spec fn well_formed(&self) -> bool {
        &&& graph_nodes(self.mod_dependency_graph) == keys(self.modules.deep_view())
        &&& distinct_keys(self.modules.deep_view())
        &&& edges_in_range(self.modules.deep_view().len(), graph_edges(self.mod_dependency_graph))
    }

    /// What every graph is known to satisfy.
    pub open spec fn sound(&self) -> bool {
        &&& distinct_keys(self.modules_model())
        &&& edges_in_range(self.modules_model().len(), self.edges())
    }

    /// Builds the graph: flattens the tree, makes each module a node,
    /// resolves every declared dependency by scope visibility and records
    /// an edge from the module found to the one that declared it. A
    /// dependency gets the id of a module of the innermost scope that
    /// holds one of the wanted source.
    pub fn new(infra: &InfraFile) -> (res: Result<ModuleGraph, StackError>)
        requires
            collect_all(infra.deep_view().nodes).modules.len() < u32::MAX,
            dependency_count(
                collect_all(infra.deep_view().nodes).modules,
                collect_all(infra.deep_view().nodes).modules.len(),
            ) < u32::MAX,
        ensures
            match res {
                Ok(g) => {
                    &&& g.sound()
                    &&& all_resolve(collect_all(infra.deep_view().nodes).modules)
                    &&& g.modules_model() == enriched(collect_all(infra.deep_view().nodes).modules)
                    &&& g.scopes_model() == collect_all(infra.deep_view().nodes).scopes
                    &&& g.edges() == dependency_edges(collect_all(infra.deep_view().nodes).modules)
                    &&& forall|i: int, j: int, k: int| #[trigger]
                        innermost_match(collect_all(infra.deep_view().nodes).modules, i, j, k)
                            ==> g.modules_model()[i].1.dependencies[j].id == innermost_id(
                            collect_all(infra.deep_view().nodes).modules,
                            i,
                            j,
                            k,
                        )
                },
                Err(e) => {
                    &&& e matches StackError::DependencyNotFound { dependency, module_id }
                    &&& exists|i: int, j: int|
                        {
                            &&& #[trigger] is_first_unresolved(
                                collect_all(infra.deep_view().nodes).modules,
                                i,
                                j,
                            )
                            &&& dependency@ == collect_all(
                                infra.deep_view().nodes,
                            ).modules[i].1.dependencies[j].name
                            &&& module_id@ == collect_all(infra.deep_view().nodes).modules[i].1.id
                        }
                },
            },
    {
        let ghost tree = infra.deep_view().nodes;
        let ghost all = collect_all(tree).modules;
        let mut modules: Vec<(String, ModuleNode)> = Vec::new();
        let mut scopes: Vec<(String, Scope)> = Vec::new();
        let mut c: usize = 0;
        assert(modules.deep_view() =~= Seq::empty());
        assert(scopes.deep_view() =~= Seq::empty());
        while c < infra.nodes.len()
            invariant
                c <= infra.nodes@.len(),
                tree == infra.nodes.deep_view(),
                keyed_by_id(modules.deep_view()),
                collected(modules.deep_view(), scopes.deep_view()) == collect_children(
                    tree,
                    collected(Seq::empty(), Seq::empty()),
                    c as nat,
                ),
            decreases infra.nodes@.len() - c,
        {
            proof {
                assert(tree[c as int] == infra.nodes@[c as int].deep_view());
                lemma_collect_keyed(
                    tree[c as int].1,
                    collected(modules.deep_view(), scopes.deep_view()),
                );
            }
            collect_modules(&infra.nodes[c].1, &mut modules, &mut scopes);
            c += 1;
        }
        assert(modules.deep_view() == all);
        let n = modules.len();
        let mut g = graph_new();
        let mut a: usize = 0;
        while a < n
            invariant
                a <= n,
                n == modules@.len(),
                n < u32::MAX,
                all == modules.deep_view(),
                graph_nodes(g) == keys(all).take(a as int),
                graph_edges(g) == Seq::<(int, int)>::empty(),
            decreases n - a,
        {
            graph_add_node(&mut g, modules[a].0.clone());
            proof {
                assert(all[a as int] == modules@[a as int].deep_view());
                assert(keys(all).take(a + 1) =~= keys(all).take(a as int).push(
                    modules@[a as int].0@,
                ));
            }
            a += 1;
        }
        assert(keys(all).take(n as int) =~= keys(all));
        let mut final_modules: Vec<(String, ModuleNode)> = Vec::new();
        let mut b: usize = 0;
        assert(final_modules.deep_view() =~= enriched(all).take(0));
        while b < n
            invariant
                b <= n,
                n == modules@.len(),
                all == modules.deep_view(),
                all == collect_all(infra.deep_view().nodes).modules,
                keyed_by_id(all),
                dependency_count(all, n as nat) < u32::MAX,
                graph_nodes(g) == keys(all),
                graph_edges(g) == edges_upto(all, b as nat),
                edges_in_range(n as nat, graph_edges(g)),
                final_modules.deep_view() == enriched(all).take(b as int),
                forall|i2: int, j2: int|
                    0 <= i2 < b && 0 <= j2 < all[i2].1.dependencies.len() ==> #[trigger] resolves(
                        all,
                        i2,
                        j2,
                    ),
            decreases n - b,
        {
            let module = &modules[b].1;
            let ghost mm = all[b as int].1;
            assert(all[b as int] == modules@[b as int].deep_view());
            let mut enriched_deps: Vec<Dependency> = Vec::new();
            let mut j: usize = 0;
            assert(enriched_deps.deep_view() =~= enriched_dependencies(all, b as int, 0));
            assert(edges_upto(all, b as nat) + module_edges(all, b as int, 0) =~= edges_upto(
                all,
                b as nat,
            ));
            while j < module.dependencies.len()
                invariant
                    j <= module.dependencies@.len(),
                    b < n,
                    n == modules@.len(),
                    module == &modules@[b as int].1,
                    all == modules.deep_view(),
                    all == collect_all(infra.deep_view().nodes).modules,
                    mm == all[b as int].1,
                    mm == module.deep_view(),
                    keyed_by_id(all),
                    dependency_count(all, n as nat) < u32::MAX,
                    graph_nodes(g) == keys(all),
                    graph_edges(g) == edges_upto(all, b as nat) + module_edges(
                        all,
                        b as int,
                        j as nat,
                    ),
                    edges_in_range(n as nat, graph_edges(g)),
                    enriched_deps.deep_view() == enriched_dependencies(all, b as int, j as nat),
                    forall|j2: int| 0 <= j2 < j ==> #[trigger] resolves(all, b as int, j2),
                    forall|i2: int, j2: int|
                        0 <= i2 < b && 0 <= j2 < all[i2].1.dependencies.len()
                            ==> #[trigger] resolves(all, i2, j2),
                decreases module.dependencies@.len() - j,
            {
                let dependency = &module.dependencies[j];
                assert(mm.dependencies[j as int] == dependency.deep_view());
                let dep_id = match resolve_dependency_id(
                    module,
                    dependency.name.as_str(),
                    &modules,
                ) {
                    Ok(id) => id,
                    Err(e) => {
                        proof {
                            assert(is_first_unresolved(all, b as int, j as int));
                        }
                        return Err(e);
                    },
                };
                let ghost src = resolved_index(all, b as int, j as int);
                proof {
                    assert(resolves(all, b as int, j as int));
                    lemma_distinct_key_index(all, src);
                    lemma_distinct_key_index(all, b as int);
                    lemma_edge_count(all, b as nat);
                    lemma_dependency_count_grows(all, (b + 1) as nat, n as nat);
                }
                let ghost deps_before = enriched_deps.deep_view();
                enriched_deps.push(Dependency { id: dep_id.clone(), name: dependency.name.clone() });
                proof {
                    assert(enriched_deps.deep_view() =~= deps_before.push(
                        DependencyModel { id: dep_id@, name: dependency.name@ },
                    ));
                    assert(enriched_deps.deep_view() =~= enriched_dependencies(
                        all,
                        b as int,
                        (j + 1) as nat,
                    ));
                }
                let ghost edges_before = graph_edges(g);
                match (find_key(&modules, &dep_id), find_key(&modules, &modules[b].0)) {
                    (Some(from), Some(to)) => {
                        graph_add_edge(&mut g, from, to);
                    },
                    _ => {},
                }
                proof {
                    assert(graph_edges(g) == edges_before.push((src, b as int)));
                    assert(module_edges(all, b as int, (j + 1) as nat) =~= module_edges(
                        all,
                        b as int,
                        j as nat,
                    ).push((src, b as int)));
                    assert(graph_edges(g) =~= edges_upto(all, b as nat) + module_edges(
                        all,
                        b as int,
                        (j + 1) as nat,
                    ));
                    assert forall|k: int| 0 <= k < graph_edges(g).len() implies 0 <= (
                    #[trigger] graph_edges(g)[k]).0 < n && 0 <= graph_edges(g)[k].1 < n by {
                        if k < edges_before.len() {
                            assert(graph_edges(g)[k] == edges_before[k]);
                        }
                    }
                }
                j += 1;
            }
            let mut enriched_node = module.duplicate();
            enriched_node.dependencies = enriched_deps;
            let ghost before = final_modules.deep_view();
            final_modules.push((modules[b].0.clone(), enriched_node));
            proof {
                assert(enriched_node.deep_view() == enriched_module(all, b as int));
                assert(final_modules.deep_view() =~= before.push(
                    (all[b as int].0, enriched_module(all, b as int)),
                ));
                assert(final_modules.deep_view() =~= enriched(all).take(b + 1));
            }
            b += 1;
        }
        proof {
            assert(enriched(all).take(n as int) =~= enriched(all));
            assert(keys(enriched(all)) =~= keys(all));
            assert(distinct_keys(enriched(all))) by {
                assert forall|i: int, k: int| 0 <= i < k < enriched(all).len() implies (
                #[trigger] enriched(all)[i]).0 != (#[trigger] enriched(all)[k]).0 by {
                    assert(all[i].0 != all[k].0);
                }
            }
        }
        proof {
            assert forall|i: int, j: int, k: int| #[trigger]
                innermost_match(all, i, j, k) implies enriched(all)[i].1.dependencies[j].id
                == innermost_id(all, i, j, k) by {
                lemma_dependency_gets_innermost_module(all, i, j, k);
            }
        }
        Ok(ModuleGraph { mod_dependency_graph: g, modules: final_modules, scopes })
    }

    /// The execution plan for a target: the layers in which its transitive
    /// dependencies can run, the modules of a layer in node order, and the
    /// target itself, which lies in no layer.
    pub fn execution_layers(&self, target_module_id: &str) -> (res: Result<
        (Vec<Vec<String>>, String),
        StackError,
    >)
        ensures
            self.sound(),
            match res {
                Ok((layers, target)) => {
                    &&& (key_index(self.modules_model(), target_module_id@) matches Some(t)
                        && !has_relevant_cycle(self.edges(), t) && is_named_plan(
                        self.module_ids(),
                        self.edges(),
                        t,
                        layers.deep_view(),
                    ))
                    &&& target@ == target_module_id@
                },
                Err(StackError::TargetNotFound(name)) => {
                    &&& (key_index(self.modules_model(), target_module_id@) is None)
                    &&& name@ == target_module_id@
                },
                Err(StackError::CycleDetected) => (key_index(
                    self.modules_model(),
                    target_module_id@,
                ) matches Some(t) && has_relevant_cycle(self.edges(), t)),
                Err(_) => false,
            },
    {
        proof {
            use_type_invariant(self);
        }
        let g = &self.mod_dependency_graph;
        let ghost all = self.modules.deep_view();
        let ghost ids = keys(all);
        let ghost edges = graph_edges(*g);
        let target: String = target_module_id.to_owned();
        let indices = graph_node_indices(g);
        let mut found: Option<usize> = None;
        let mut i: usize = 0;
        while i < indices.len() && found.is_none()
            invariant
                i <= indices@.len(),
                indices@.len() == ids.len(),
                forall|k: int| 0 <= k < indices@.len() ==> indices@[k] == k,
                graph_nodes(*g) == ids,
                ids == keys(all),
                target@ == target_module_id@,
                found is None ==> forall|k: int| 0 <= k < i ==> (#[trigger] all[k]).0 != target@,
                found matches Some(t) ==> t < ids.len() && all[t as int].0 == target@ && forall|k: int|
                    0 <= k < t ==> (#[trigger] all[k]).0 != target@,
            decreases indices@.len() - i + if found is None { 1int } else { 0int },
        {
            let idx = indices[i];
            assert(ids[idx as int] == all[idx as int].0);
            if *graph_node_weight(g, idx) == target {
                found = Some(idx);
            } else {
                i += 1;
            }
        }
        proof {
            lemma_key_index(all, target@);
        }
        let t = match found {
            None => {
                return Err(StackError::TargetNotFound(target));
            },
            Some(t) => t,
        };
        let plan = match plan_layers(g, t) {
            Err(e) => {
                return Err(e);
            },
            Ok(plan) => plan,
        };
        let ghost index_plan = layers_as_ints(plan@);
        let mut layers: Vec<Vec<String>> = Vec::new();
        let mut k: usize = 0;
        while k < plan.len()
            invariant
                k <= plan@.len(),
                graph_nodes(*g) == ids,
                edges == graph_edges(*g),
                index_plan == layers_as_ints(plan@),
                is_plan(ids.len(), edges, t as int, index_plan),
                layers@.len() == k,
                forall|c: int|
                    0 <= c < k ==> (#[trigger] layers@[c]).deep_view() == layer_names(
                        ids,
                        edges,
                        t as int,
                        c as nat,
                    ),
            decreases plan@.len() - k,
        {
            let layer = &plan[k];
            let ghost members = layer_seq(ids.len(), edges, t as int, k as nat);
            assert(index_plan[k as int] == as_ints(layer@));
            assert(as_ints(layer@) == members);
            let mut names: Vec<String> = Vec::new();
            let mut m: usize = 0;
            while m < layer.len()
                invariant
                    m <= layer@.len(),
                    graph_nodes(*g) == ids,
                    edges == graph_edges(*g),
                    members == layer_seq(ids.len(), edges, t as int, k as nat),
                    as_ints(layer@) == members,
                    names@.len() == m,
                    forall|c: int| 0 <= c < m ==> (#[trigger] names@[c])@ == ids[members[c]],
                decreases layer@.len() - m,
            {
                let idx = layer[m];
                proof {
                    assert(members[m as int] == idx as int);
                    assert(members.contains(idx as int));
                    lemma_layer_members(ids.len(), edges, t as int, k as nat, idx as int);
                }
                names.push(graph_node_weight(g, idx).clone());
                m += 1;
            }
            assert(names.deep_view() =~= layer_names(ids, edges, t as int, k as nat));
            layers.push(names);
            k += 1;
        }
        proof {
            let named = layers.deep_view();
            assert forall|c: int| 0 <= c < named.len() implies #[trigger] named[c] == layer_names(
                ids,
                edges,
                t as int,
                c as nat,
            ) && named[c].len() > 0 by {
                assert(named[c] == layers@[c].deep_view());
                assert(index_plan[c].len() > 0);
            }
        }
        Ok((layers, target))
    }

    /// The modules by id.
    pub fn modules(self) -> (res: Vec<(String, ModuleNode)>)
        ensures
            res.deep_view() == self.modules_model(),
    {
        self.modules
    }

    /// The scopes by id.
    pub fn scopes(self) -> (res: Vec<(String, Scope)>)
        ensures
            res.deep_view() == self.scopes_model(),
    {
        self.scopes
    }

    /// The module with the given id.
    pub fn get_module_by_id(&self, id: &str) -> (res: Option<ModuleNode>)
        ensures
            res.deep_view() == lookup(self.modules_model(), id@),
    {
        let key: String = id.to_owned();
        match find_key(&self.modules, &key) {
            Some(i) => {
                assert(self.modules.deep_view()[i as int] == self.modules@[i as int].deep_view());
                Some(self.modules[i].1.duplicate())
            },
            None => None,
        }
    }

    /// The scope with the given id.
    pub fn get_scope_by_id(&self, id: &str) -> (res: Option<Scope>)
        ensures
            res.deep_view() == lookup(self.scopes_model(), id@),
    {
        let key: String = id.to_owned();
        match find_key(&self.scopes, &key) {
            Some(i) => {
                assert(self.scopes.deep_view()[i as int] == self.scopes@[i as int].deep_view());
                Some(self.scopes[i].1.duplicate())
            },
            None => None,
        }
    }
}

} // verus!
