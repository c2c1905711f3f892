//! From the infrastructure tree to the graph's raw material: the modules
//! and scopes of the tree by id, the module that each dependency name
//! stands for under scope visibility, and the edges that follow.

use crate::error::StackError;
use crate::graph::{Scope, ScopeModel};
use crate::parser::{
    lemma_node_parts, DependencyModel, InfraNode, InfraNodeModel, ModuleModel, ModuleNode,
};
use crate::value::{
    contains_string, distinct_keys, lemma_key_index, upsert, upsert_entry, Dict, Duplicate,
};
use vstd::prelude::*;

verus! {

/// The modules and scopes found in a tree, each keyed by its id.
pub struct Collected {
    pub modules: Dict<ModuleModel>,
    pub scopes: Dict<ScopeModel>,
}

/// The two collections as one value.
pub open spec fn collected(modules: Dict<ModuleModel>, scopes: Dict<ScopeModel>) -> Collected {
    Collected { modules, scopes }
}

/// `acc` with `node` and all below it added, a scope before its children
/// and the children in their order.
pub open spec fn collect_node(node: InfraNodeModel, acc: Collected) -> Collected
    decreases node, 0nat,
{
    match node {
        InfraNodeModel::Module(m) => Collected { modules: upsert(acc.modules, m.id, m), ..acc },
        InfraNodeModel::Scope(s) => collect_children(
            s.children,
            Collected {
                scopes: upsert(
                    acc.scopes,
                    s.id,
                    ScopeModel { name: s.scope, variables: s.variables },
                ),
                ..acc
            },
            s.children.len(),
        ),
    }
}

/// `acc` with the first `count` of `children` added.
pub open spec fn collect_children(children: Dict<InfraNodeModel>, acc: Collected, count: nat) -> Collected
    decreases children, count,
{
    if count == 0 || count > children.len() {
        acc
    } else {
        collect_node(children[count - 1].1, collect_children(children, acc, (count - 1) as nat))
    }
}

/// All modules and scopes of a tree.
pub open spec fn collect_all(nodes: Dict<InfraNodeModel>) -> Collected {
    collect_children(nodes, collected(Seq::empty(), Seq::empty()), nodes.len())
}

/// Adds `node` and all below it to `modules` and `scopes`.
#[verifier::loop_isolation(false)]
pub fn collect_modules(
    node: &InfraNode,
    modules: &mut Vec<(String, ModuleNode)>,
    scopes: &mut Vec<(String, Scope)>,
)
    ensures
        collected(final(modules).deep_view(), final(scopes).deep_view()) == collect_node(
            node.deep_view(),
            collected(old(modules).deep_view(), old(scopes).deep_view()),
        ),
    decreases node,
{
    proof {
        lemma_node_parts(*node);
    }
    match node {
        InfraNode::Module(m) => {
            upsert_entry(modules, m.id.clone(), m.duplicate());
        },
        InfraNode::Scope(s) => {
            let ghost acc0 = Collected {
                modules: modules.deep_view(),
                scopes: scopes.deep_view(),
            };
            upsert_entry(
                scopes,
                s.id.clone(),
                Scope { name: s.scope.clone(), variables: s.variables.duplicate() },
            );
            let ghost acc1 = Collected {
                modules: modules.deep_view(),
                scopes: scopes.deep_view(),
            };
            let ghost children = s.children.deep_view();
            let mut i: usize = 0;
            while i < s.children.len()
                invariant
                    i <= s.children@.len(),
                    collected(modules.deep_view(), scopes.deep_view()) == collect_children(
                        children,
                        acc1,
                        i as nat,
                    ),
                decreases s.children@.len() - i,
            {
                proof {
                    vstd::std_specs::vec::axiom_vec_index_decreases(s.children, i as int);
                    assert(children[i as int] == s.children@[i as int].deep_view());
                }
                collect_modules(&s.children[i].1, modules, scopes);
                i += 1;
            }
        },
    }
}

/// A module with source `dep` that lies in the scope `scope_id`.
pub open spec fn visible_in(m: ModuleModel, dep: Seq<char>, scope_id: Seq<char>) -> bool {
    m.source == dep && m.scope_ids.contains(scope_id)
}

/// The first module with source `dep` that lies in the scope `scope_id`.
pub open spec fn first_visible(modules: Dict<ModuleModel>, dep: Seq<char>, scope_id: Seq<char>) -> Option<int>
    decreases modules.len(),
{
    if modules.len() == 0 {
        None
    } else {
        match first_visible(modules.drop_last(), dep, scope_id) {
            Some(i) => Some(i),
            None => if visible_in(modules.last().1, dep, scope_id) {
                Some(modules.len() - 1)
            } else {
                None
            },
        }
    }
}

/// Resolution among the first `count` enclosing scopes, the innermost of
/// them first.
pub open spec fn resolve_within(
    modules: Dict<ModuleModel>,
    scope_ids: Seq<Seq<char>>,
    dep: Seq<char>,
    count: nat,
) -> Option<int>
    decreases count,
{
    if count == 0 || count > scope_ids.len() {
        None
    } else {
        match first_visible(modules, dep, scope_ids[count - 1]) {
            Some(i) => Some(i),
            None => resolve_within(modules, scope_ids, dep, (count - 1) as nat),
        }
    }
}

/// The module that the name `dep` stands for, seen from a module enclosed
/// by `scope_ids` (outermost first): the first module of that source in the
/// innermost scope that holds one.
pub open spec fn resolve(modules: Dict<ModuleModel>, scope_ids: Seq<Seq<char>>, dep: Seq<char>) -> Option<int> {
    resolve_within(modules, scope_ids, dep, scope_ids.len())
}

/// `first_visible` finds the first match, and nothing where there is none.
pub proof fn lemma_first_visible(modules: Dict<ModuleModel>, dep: Seq<char>, scope_id: Seq<char>)
    ensures
        match first_visible(modules, dep, scope_id) {
            Some(i) => {
                &&& 0 <= i < modules.len()
                &&& visible_in(modules[i].1, dep, scope_id)
                &&& forall|j: int| 0 <= j < i ==> !visible_in((#[trigger] modules[j]).1, dep, scope_id)
            },
            None => forall|j: int|
                0 <= j < modules.len() ==> !visible_in((#[trigger] modules[j]).1, dep, scope_id),
        },
    decreases modules.len(),
{
    if modules.len() > 0 {
        let front = modules.drop_last();
        lemma_first_visible(front, dep, scope_id);
        match first_visible(front, dep, scope_id) {
            Some(i) => {
                assert(front[i] == modules[i]);
                assert forall|j: int| 0 <= j < i implies !visible_in(
                    (#[trigger] modules[j]).1,
                    dep,
                    scope_id,
                ) by {
                    assert(front[j] == modules[j]);
                }
            },
            None => {
                assert forall|j: int| 0 <= j < modules.len() - 1 implies !visible_in(
                    (#[trigger] modules[j]).1,
                    dep,
                    scope_id,
                ) by {
                    assert(front[j] == modules[j]);
                }
            },
        }
    }
}

/// Resolves the dependency name `dep_name` of `module` to the id of a
/// module: the enclosing scopes are tried from the innermost outwards, and
/// in each the modules in their order.
pub fn resolve_dependency_id(
    module: &ModuleNode,
    dep_name: &str,
    modules: &Vec<(String, ModuleNode)>,
) -> (res: Result<String, StackError>)
    ensures
        match res {
            Ok(id) => resolve(modules.deep_view(), module.deep_view().scope_ids, dep_name@)
                matches Some(i) && 0 <= i < modules@.len() && id@ == modules.deep_view()[i].1.id,
            Err(e) => {
                &&& resolve(modules.deep_view(), module.deep_view().scope_ids, dep_name@) is None
                &&& e matches StackError::DependencyNotFound { dependency, module_id }
                &&& dependency@ == dep_name@
                &&& module_id@ == module.id@
            },
        },
{
    let ghost all = modules.deep_view();
    let ghost scope_ids = module.scope_ids.deep_view();
    let dep: String = dep_name.to_owned();
    let mut k: usize = module.scope_ids.len();
    while k > 0
        invariant
            k <= module.scope_ids@.len(),
            all == modules.deep_view(),
            scope_ids == module.scope_ids.deep_view(),
            dep@ == dep_name@,
            resolve(all, scope_ids, dep@) == resolve_within(all, scope_ids, dep@, k as nat),
        decreases k,
    {
        let scope_id = &module.scope_ids[k - 1];
        assert(scope_ids[k - 1] == scope_id@);
        let mut i: usize = 0;
        while i < modules.len()
            invariant
                i <= modules@.len(),
                all == modules.deep_view(),
                0 < k <= module.scope_ids@.len(),
                scope_ids == module.scope_ids.deep_view(),
                scope_ids[k - 1] == scope_id@,
                dep@ == dep_name@,
                resolve(all, scope_ids, dep@) == resolve_within(all, scope_ids, dep@, k as nat),
                forall|j: int| 0 <= j < i ==> !visible_in((#[trigger] all[j]).1, dep@, scope_id@),
            decreases modules@.len() - i,
        {
            let m = &modules[i].1;
            assert(all[i as int].1 == m.deep_view());
            if m.source == dep && contains_string(&m.scope_ids, scope_id) {
                proof {
                    lemma_first_visible(all, dep@, scope_id@);
                }
                return Ok(m.id.clone());
            }
            i += 1;
        }
        proof {
            lemma_first_visible(all, dep@, scope_id@);
        }
        k -= 1;
    }
    Err(StackError::DependencyNotFound { dependency: dep, module_id: module.id.clone() })
}

/// The keys are distinct, and each module stands under its own id.
pub open spec fn keyed_by_id(modules: Dict<ModuleModel>) -> bool {
    &&& distinct_keys(modules)
    &&& forall|i: int| 0 <= i < modules.len() ==> (#[trigger] modules[i]).0 == modules[i].1.id
}

/// Collecting keeps modules keyed by their ids.
pub proof fn lemma_collect_keyed(node: InfraNodeModel, acc: Collected)
    requires
        keyed_by_id(acc.modules),
    ensures
        keyed_by_id(collect_node(node, acc).modules),
    decreases node, 0nat,
{
    match node {
        InfraNodeModel::Module(m) => {
            lemma_key_index(acc.modules, m.id);
        },
        InfraNodeModel::Scope(s) => {
            let start = Collected {
                scopes: upsert(
                    acc.scopes,
                    s.id,
                    ScopeModel { name: s.scope, variables: s.variables },
                ),
                ..acc
            };
            lemma_collect_children_keyed(s.children, start, s.children.len());
        },
    }
}

/// Collecting children keeps modules keyed by their ids.
pub proof fn lemma_collect_children_keyed(children: Dict<InfraNodeModel>, acc: Collected, count: nat)
    requires
        keyed_by_id(acc.modules),
    ensures
        keyed_by_id(collect_children(children, acc, count).modules),
    decreases children, count,
{
    if count == 0 || count > children.len() {
    } else {
        lemma_collect_children_keyed(children, acc, (count - 1) as nat);
        lemma_collect_keyed(
            children[count - 1].1,
            collect_children(children, acc, (count - 1) as nat),
        );
    }
}

/// Dependency `j` of module `i` stands for some module.
pub open spec fn resolves(modules: Dict<ModuleModel>, i: int, j: int) -> bool {
    resolve(modules, modules[i].1.scope_ids, modules[i].1.dependencies[j].name) is Some
}

/// The position of the module that dependency `j` of module `i` stands for.
pub open spec fn resolved_index(modules: Dict<ModuleModel>, i: int, j: int) -> int {
    resolve(modules, modules[i].1.scope_ids, modules[i].1.dependencies[j].name)->0
}

/// Every declared dependency stands for some module.
pub open spec fn all_resolve(modules: Dict<ModuleModel>) -> bool {
    forall|i: int, j: int|
        0 <= i < modules.len() && 0 <= j < modules[i].1.dependencies.len() ==> #[trigger] resolves(
            modules,
            i,
            j,
        )
}

/// Dependency `j` of module `i` is the first, module by module and
/// dependency by dependency, that stands for no module.
pub open spec fn is_first_unresolved(modules: Dict<ModuleModel>, i: int, j: int) -> bool {
    &&& 0 <= i < modules.len()
    &&& 0 <= j < modules[i].1.dependencies.len()
    &&& !resolves(modules, i, j)
    &&& forall|j2: int| 0 <= j2 < j ==> #[trigger] resolves(modules, i, j2)
    &&& forall|i2: int, j2: int|
        0 <= i2 < i && 0 <= j2 < modules[i2].1.dependencies.len() ==> #[trigger] resolves(
            modules,
            i2,
            j2,
        )
}

/// The first `count` dependencies of module `i`, each with the id of the
/// module that it stands for.
pub open spec fn enriched_dependencies(modules: Dict<ModuleModel>, i: int, count: nat) -> Seq<
    DependencyModel,
> {
    Seq::new(
        count,
        |j: int|
            DependencyModel {
                id: modules[resolved_index(modules, i, j)].1.id,
                name: modules[i].1.dependencies[j].name,
            },
    )
}

/// Module `i` with its dependencies resolved.
pub open spec fn enriched_module(modules: Dict<ModuleModel>, i: int) -> ModuleModel {
    ModuleModel {
        dependencies: enriched_dependencies(modules, i, modules[i].1.dependencies.len()),
        ..modules[i].1
    }
}

/// All modules with their dependencies resolved.
pub open spec fn enriched(modules: Dict<ModuleModel>) -> Dict<ModuleModel> {
    Seq::new(modules.len(), |i: int| (modules[i].0, enriched_module(modules, i)))
}

/// The edges that the first `count` dependencies of module `b` give: from
/// the module that a dependency stands for to `b`.
pub open spec fn module_edges(modules: Dict<ModuleModel>, b: int, count: nat) -> Seq<(int, int)> {
    Seq::new(count, |j: int| (resolved_index(modules, b, j), b))
}

/// The edges that the first `count` modules give, module by module.
pub open spec fn edges_upto(modules: Dict<ModuleModel>, count: nat) -> Seq<(int, int)>
    decreases count,
{
    if count == 0 {
        Seq::empty()
    } else {
        edges_upto(modules, (count - 1) as nat) + module_edges(
            modules,
            count - 1,
            modules[count - 1].1.dependencies.len(),
        )
    }
}

/// All dependency edges of a set of modules.
pub open spec fn dependency_edges(modules: Dict<ModuleModel>) -> Seq<(int, int)> {
    edges_upto(modules, modules.len())
}

/// How many dependencies the first `count` modules declare.
pub open spec fn dependency_count(modules: Dict<ModuleModel>, count: nat) -> nat
    decreases count,
{
    if count == 0 {
        0
    } else {
        dependency_count(modules, (count - 1) as nat) + modules[count - 1].1.dependencies.len()
    }
}

pub(crate) proof fn lemma_edge_count(modules: Dict<ModuleModel>, count: nat)
    ensures
        edges_upto(modules, count).len() == dependency_count(modules, count),
    decreases count,
{
    if count > 0 {
        lemma_edge_count(modules, (count - 1) as nat);
    }
}

pub(crate) proof fn lemma_dependency_count_grows(modules: Dict<ModuleModel>, a: nat, b: nat)
    requires
        a <= b,
    ensures
        dependency_count(modules, a) <= dependency_count(modules, b),
    decreases b,
{
    if a < b {
        lemma_dependency_count_grows(modules, a, (b - 1) as nat);
    }
}

/// Scope precedence: where some module of the wanted source lies in the
/// enclosing scope at position `k` and none lies in a scope further in, the
/// name stands for the first such module of scope `k`, whatever the scopes
/// further out hold.
pub proof fn lemma_innermost_scope_wins(
    modules: Dict<ModuleModel>,
    scope_ids: Seq<Seq<char>>,
    dep: Seq<char>,
    k: int,
)
    requires
        0 <= k < scope_ids.len(),
        first_visible(modules, dep, scope_ids[k]) is Some,
        forall|k2: int|
            k < k2 < scope_ids.len() ==> first_visible(modules, dep, #[trigger] scope_ids[k2]) is None,
    ensures
        resolve(modules, scope_ids, dep) == first_visible(modules, dep, scope_ids[k]),
{
    lemma_resolve_skips(modules, scope_ids, dep, k, scope_ids.len());
}

proof fn lemma_resolve_skips(
    modules: Dict<ModuleModel>,
    scope_ids: Seq<Seq<char>>,
    dep: Seq<char>,
    k: int,
    count: nat,
)
    requires
        0 <= k < count <= scope_ids.len(),
        forall|k2: int|
            k < k2 < scope_ids.len() ==> first_visible(modules, dep, #[trigger] scope_ids[k2]) is None,
    ensures
        resolve_within(modules, scope_ids, dep, count) == resolve_within(
            modules,
            scope_ids,
            dep,
            (k + 1) as nat,
        ),
    decreases count,
{
    if count > k + 1 {
        assert(first_visible(modules, dep, scope_ids[count - 1]) is None);
        lemma_resolve_skips(modules, scope_ids, dep, k, (count - 1) as nat);
    }
}

/// Scope precedence, by module: the first module of the wanted source in
/// the innermost enclosing scope is what the name stands for, whatever
/// modules of that source the scopes further out hold.
pub proof fn lemma_innermost_module_wins(
    modules: Dict<ModuleModel>,
    scope_ids: Seq<Seq<char>>,
    dep: Seq<char>,
    c: int,
)
    requires
        scope_ids.len() > 0,
        0 <= c < modules.len(),
        visible_in(modules[c].1, dep, scope_ids.last()),
        forall|j: int| 0 <= j < c ==> !visible_in((#[trigger] modules[j]).1, dep, scope_ids.last()),
    ensures
        resolve(modules, scope_ids, dep) == Some(c),
{
    lemma_first_visible(modules, dep, scope_ids.last());
}

/// The innermost scope around module `i` that holds a module of the
/// source that dependency `j` names is the one at position `k`.
pub open spec fn innermost_match(modules: Dict<ModuleModel>, i: int, j: int, k: int) -> bool {
    &&& 0 <= i < modules.len()
    &&& 0 <= j < modules[i].1.dependencies.len()
    &&& 0 <= k < modules[i].1.scope_ids.len()
    &&& first_visible(modules, modules[i].1.dependencies[j].name, modules[i].1.scope_ids[k]) is Some
    &&& forall|k2: int|
        k < k2 < modules[i].1.scope_ids.len() ==> first_visible(
            modules,
            modules[i].1.dependencies[j].name,
            #[trigger] modules[i].1.scope_ids[k2],
        ) is None
}

/// The id of the first module of scope `k` around module `i` that has the
/// source that dependency `j` names.
pub open spec fn innermost_id(modules: Dict<ModuleModel>, i: int, j: int, k: int) -> Seq<char> {
    modules[first_visible(
        modules,
        modules[i].1.dependencies[j].name,
        modules[i].1.scope_ids[k],
    )->0].1.id
}

/// Scope precedence, as the graph records it: where the innermost scope
/// around module `i` that holds a module of the source that dependency `j`
/// names is the one at position `k`, the dependency resolves, and in the
/// modules of the graph it carries the id of the first such module of
/// that scope, whatever the scopes further out hold.
pub proof fn lemma_dependency_gets_innermost_module(
    modules: Dict<ModuleModel>,
    i: int,
    j: int,
    k: int,
)
    requires
        innermost_match(modules, i, j, k),
    ensures
        resolves(modules, i, j),
        enriched(modules)[i].0 == modules[i].0,
        enriched(modules)[i].1.dependencies.len() == modules[i].1.dependencies.len(),
        enriched(modules)[i].1.dependencies[j].name == modules[i].1.dependencies[j].name,
        enriched(modules)[i].1.dependencies[j].id == innermost_id(modules, i, j, k),
{
    lemma_innermost_scope_wins(
        modules,
        modules[i].1.scope_ids,
        modules[i].1.dependencies[j].name,
        k,
    );
}

} // verus!
