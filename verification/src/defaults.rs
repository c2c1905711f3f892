//! Per-source defaults: what a module takes over from the defaults of its
//! source where it declares nothing itself.

use crate::parser::{
    lemma_node_parts, DefaultsModel, InfraFile, InfraNode, InfraNodeModel, ModuleDefaults,
    ModuleModel, ModuleNode, ScopeNode, ScopeNodeModel,
};
use crate::value::{find_key, key_index, lookup, Dict, Duplicate};
use vstd::prelude::*;

verus! {

/// `entries` with `key` bound to `value` unless the key is bound already.
pub open spec fn insert_absent<M>(entries: Dict<M>, key: Seq<char>, value: M) -> Dict<M> {
    if key_index(entries, key) is Some {
        entries
    } else {
        entries.push((key, value))
    }
}

/// `entries` with the first `count` of `extra` added, each unless its key
/// is bound already.
pub open spec fn fill_absent<M>(entries: Dict<M>, extra: Dict<M>, count: nat) -> Dict<M>
    decreases count,
{
    if count == 0 || count > extra.len() {
        entries
    } else {
        insert_absent(
            fill_absent(entries, extra, (count - 1) as nat),
            extra[count - 1].0,
            extra[count - 1].1,
        )
    }
}

/// A module with the defaults of its source merged in: what the module
/// declares stands; dependencies and canned outputs are taken over where
/// it has none, variables and inputs name by name.
pub open spec fn merged(m: ModuleModel, d: DefaultsModel) -> ModuleModel {
    ModuleModel {
        dependencies: if m.dependencies.len() == 0 {
            d.dependencies
        } else {
            m.dependencies
        },
        variables: fill_absent(m.variables, d.variables, d.variables.len()),
        inputs: fill_absent(m.inputs, d.inputs, d.inputs.len()),
        mocked_outputs: if m.mocked_outputs is None {
            d.mocked_outputs
        } else {
            m.mocked_outputs
        },
        ..m
    }
}

/// A module with the defaults of its source, if there are any.
pub open spec fn defaulted_module(m: ModuleModel, defaults: Dict<DefaultsModel>) -> ModuleModel {
    match lookup(defaults, m.source) {
        Some(d) => merged(m, d),
        None => m,
    }
}

/// A tree with defaults merged into every module.
pub open spec fn defaulted_node(node: InfraNodeModel, defaults: Dict<DefaultsModel>) -> InfraNodeModel
    decreases node, 0nat,
{
    match node {
        InfraNodeModel::Module(m) => InfraNodeModel::Module(defaulted_module(m, defaults)),
        InfraNodeModel::Scope(s) => InfraNodeModel::Scope(
            ScopeNodeModel {
                children: defaulted_children(s.children, defaults, s.children.len()),
                ..s
            },
        ),
    }
}

/// The first `count` children, each with defaults merged in.
pub open spec fn defaulted_children(
    children: Dict<InfraNodeModel>,
    defaults: Dict<DefaultsModel>,
    count: nat,
) -> Dict<InfraNodeModel>
    decreases children, count,
{
    if count == 0 || count > children.len() {
        Seq::empty()
    } else {
        defaulted_children(children, defaults, (count - 1) as nat).push(
            (children[count - 1].0, defaulted_node(children[count - 1].1, defaults)),
        )
    }
}

/// Adds every entry of `extra` whose key `entries` lacks.
pub fn fill_absent_entries<V: Duplicate>(entries: &mut Vec<(String, V)>, extra: &Vec<(String, V)>)
    ensures
        final(entries).deep_view() == fill_absent(
            old(entries).deep_view(),
            extra.deep_view(),
            extra@.len() as nat,
        ),
{
    let ghost start = entries.deep_view();
    let ghost more = extra.deep_view();
    let mut i: usize = 0;
    while i < extra.len()
        invariant
            i <= extra@.len(),
            more == extra.deep_view(),
            entries.deep_view() == fill_absent(start, more, i as nat),
        decreases extra@.len() - i,
    {
        assert(more[i as int] == extra@[i as int].deep_view());
        let ghost before = entries.deep_view();
        match find_key(entries, &extra[i].0) {
            Some(_) => {},
            None => {
                entries.push((extra[i].0.clone(), extra[i].1.duplicate()));
                assert(entries.deep_view() =~= before.push(more[i as int]));
            },
        }
        i += 1;
    }
}

/// Merges the defaults of its source into `module`; what the module
/// declares overrides the defaults.
pub fn merge_module_defaults(module: &mut ModuleNode, defaults: &ModuleDefaults)
    ensures
        final(module).deep_view() == merged(old(module).deep_view(), defaults.deep_view()),
{
    if module.dependencies.len() == 0 && defaults.dependencies.len() != 0 {
        module.dependencies = defaults.dependencies.duplicate();
    }
    fill_absent_entries(&mut module.variables, &defaults.variables);
    fill_absent_entries(&mut module.inputs, &defaults.inputs);
    if module.mocked_outputs.is_none() && defaults.mocked_outputs.is_some() {
        module.mocked_outputs = defaults.mocked_outputs.duplicate();
    }
    proof {
        let before = old(module).deep_view();
        let d = defaults.deep_view();
        if before.dependencies.len() == 0 && d.dependencies.len() == 0 {
            assert(before.dependencies =~= d.dependencies);
        }
    }
}

/// A copy of `node` with defaults merged into every module below it.
#[verifier::loop_isolation(false)]
pub fn node_with_defaults(node: &InfraNode, defaults: &Vec<(String, ModuleDefaults)>) -> (res:
    InfraNode)
    ensures
        res.deep_view() == defaulted_node(node.deep_view(), defaults.deep_view()),
    decreases node,
{
    proof {
        lemma_node_parts(*node);
    }
    match node {
        InfraNode::Module(m) => {
            let mut module = m.duplicate();
            match find_key(defaults, &m.source) {
                Some(i) => {
                    assert(defaults.deep_view()[i as int] == defaults@[i as int].deep_view());
                    merge_module_defaults(&mut module, &defaults[i].1);
                },
                None => {},
            }
            let res = InfraNode::Module(module);
            proof {
                lemma_node_parts(res);
            }
            res
        },
        InfraNode::Scope(s) => {
            let ghost kids = s.children.deep_view();
            let ghost rules = defaults.deep_view();
            let mut children: Vec<(String, InfraNode)> = Vec::new();
            let mut i: usize = 0;
            assert(children.deep_view() =~= defaulted_children(kids, rules, 0));
            while i < s.children.len()
                invariant
                    i <= s.children@.len(),
                    children.deep_view() == defaulted_children(kids, rules, i as nat),
                decreases s.children@.len() - i,
            {
                proof {
                    vstd::std_specs::vec::axiom_vec_index_decreases(s.children, i as int);
                    assert(kids[i as int] == s.children@[i as int].deep_view());
                }
                let ghost before = children.deep_view();
                let child = node_with_defaults(&s.children[i].1, defaults);
                children.push((s.children[i].0.clone(), child));
                assert(children.deep_view() =~= before.push(
                    (kids[i as int].0, defaulted_node(kids[i as int].1, rules)),
                ));
                i += 1;
            }
            let res = InfraNode::Scope(
                ScopeNode {
                    scope: s.scope.clone(),
                    id: s.id.clone(),
                    variables: s.variables.duplicate(),
                    children,
                },
            );
            proof {
                lemma_node_parts(res);
            }
            res
        },
    }
}

impl InfraFile {
    /// Merges the per-source defaults into all modules of the tree.
    pub fn apply_defaults(&mut self)
        ensures
            final(self).deep_view().source_defaults == old(self).deep_view().source_defaults,
            final(self).deep_view().nodes == defaulted_children(
                old(self).deep_view().nodes,
                old(self).deep_view().source_defaults,
                old(self).deep_view().nodes.len(),
            ),
    {
        let ghost tree = self.nodes.deep_view();
        let ghost rules = self.source_defaults.deep_view();
        let mut nodes: Vec<(String, InfraNode)> = Vec::new();
        let mut i: usize = 0;
        assert(nodes.deep_view() =~= defaulted_children(tree, rules, 0));
        while i < self.nodes.len()
            invariant
                i <= self.nodes@.len(),
                tree == self.nodes.deep_view(),
                rules == self.source_defaults.deep_view(),
                nodes.deep_view() == defaulted_children(tree, rules, i as nat),
            decreases self.nodes@.len() - i,
        {
            assert(tree[i as int] == self.nodes@[i as int].deep_view());
            let ghost before = nodes.deep_view();
            let node = node_with_defaults(&self.nodes[i].1, &self.source_defaults);
            nodes.push((self.nodes[i].0.clone(), node));
            assert(nodes.deep_view() =~= before.push(
                (tree[i as int].0, defaulted_node(tree[i as int].1, rules)),
            ));
            i += 1;
        }
        self.nodes = nodes;
    }
}

} // verus!
