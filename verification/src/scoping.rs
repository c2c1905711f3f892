//! Scope membership: every module learns the ids of the scopes that
//! enclose it, from the outermost to the innermost.

use crate::parser::{
    lemma_node_parts, InfraFile, InfraNode, InfraNodeModel, ModuleModel, ScopeNode,
    ScopeNodeModel,
};
use crate::value::{contains_string, Dict, Duplicate};
use vstd::prelude::*;

verus! {

/// `ids` with `id` at its end unless `ids` holds it already.
pub open spec fn push_absent(ids: Seq<Seq<char>>, id: Seq<char>) -> Seq<Seq<char>> {
    if ids.contains(id) {
        ids
    } else {
        ids.push(id)
    }
}

/// `ids` with the first `count` of `extra` added, each unless it is held
/// already.
pub open spec fn union_in_order(ids: Seq<Seq<char>>, extra: Seq<Seq<char>>, count: nat) -> Seq<
    Seq<char>,
>
    decreases count,
{
    if count == 0 || count > extra.len() {
        ids
    } else {
        push_absent(union_in_order(ids, extra, (count - 1) as nat), extra[count - 1])
    }
}

/// A tree in which every module holds, besides what it held, the ids of
/// `enclosing` and of the scopes above it in the tree.
pub open spec fn scoped_node(node: InfraNodeModel, enclosing: Seq<Seq<char>>) -> InfraNodeModel
    decreases node, 0nat,
{
    match node {
        InfraNodeModel::Module(m) => InfraNodeModel::Module(
            ModuleModel {
                scope_ids: union_in_order(m.scope_ids, enclosing, enclosing.len()),
                ..m
            },
        ),
        InfraNodeModel::Scope(s) => InfraNodeModel::Scope(
            ScopeNodeModel {
                children: scoped_children(
                    s.children,
                    push_absent(enclosing, s.id),
                    s.children.len(),
                ),
                ..s
            },
        ),
    }
}

/// The first `count` children, each scoped.
pub open spec fn scoped_children(
    children: Dict<InfraNodeModel>,
    enclosing: Seq<Seq<char>>,
    count: nat,
) -> Dict<InfraNodeModel>
    decreases children, count,
{
    if count == 0 || count > children.len() {
        Seq::empty()
    } else {
        scoped_children(children, enclosing, (count - 1) as nat).push(
            (children[count - 1].0, scoped_node(children[count - 1].1, enclosing)),
        )
    }
}

/// Adds `id` to `ids` unless it is there.
pub fn push_if_absent(ids: &mut Vec<String>, id: &String)
    ensures
        final(ids).deep_view() == push_absent(old(ids).deep_view(), id@),
{
    let ghost before = ids.deep_view();
    if !contains_string(ids, id) {
        ids.push(id.clone());
        assert(ids.deep_view() =~= before.push(id@));
    }
}

/// A copy of `node` in which every module knows its enclosing scopes.
#[verifier::loop_isolation(false)]
pub fn node_with_scopes(node: &InfraNode, enclosing: &Vec<String>) -> (res: InfraNode)
    ensures
        res.deep_view() == scoped_node(node.deep_view(), enclosing.deep_view()),
    decreases node,
{
    proof {
        lemma_node_parts(*node);
    }
    match node {
        InfraNode::Module(m) => {
            let ghost around = enclosing.deep_view();
            let mut module = m.duplicate();
            let mut i: usize = 0;
            while i < enclosing.len()
                invariant
                    i <= enclosing@.len(),
                    module.deep_view() == (ModuleModel {
                        scope_ids: union_in_order(m.deep_view().scope_ids, around, i as nat),
                        ..m.deep_view()
                    }),
                decreases enclosing@.len() - i,
            {
                assert(around[i as int] == enclosing@[i as int]@);
                push_if_absent(&mut module.scope_ids, &enclosing[i]);
                i += 1;
            }
            let res = InfraNode::Module(module);
            proof {
                lemma_node_parts(res);
            }
            res
        },
        InfraNode::Scope(s) => {
            let mut inner = enclosing.duplicate();
            push_if_absent(&mut inner, &s.id);
            let ghost kids = s.children.deep_view();
            let ghost around = inner.deep_view();
            let mut children: Vec<(String, InfraNode)> = Vec::new();
            let mut i: usize = 0;
            assert(children.deep_view() =~= scoped_children(kids, around, 0));
            while i < s.children.len()
                invariant
                    i <= s.children@.len(),
                    around == inner.deep_view(),
                    children.deep_view() == scoped_children(kids, around, i as nat),
                decreases s.children@.len() - i,
            {
                proof {
                    vstd::std_specs::vec::axiom_vec_index_decreases(s.children, i as int);
                    assert(kids[i as int] == s.children@[i as int].deep_view());
                }
                let ghost before = children.deep_view();
                let child = node_with_scopes(&s.children[i].1, &inner);
                children.push((s.children[i].0.clone(), child));
                assert(children.deep_view() =~= before.push(
                    (kids[i as int].0, scoped_node(kids[i as int].1, around)),
                ));
                i += 1;
            }
            let res = InfraNode::Scope(
                ScopeNode {
                    scope: s.scope.clone(),
                    id: s.id.clone(),
                    variables: s.variables.duplicate(),
                    children,
                },
            );
            proof {
                lemma_node_parts(res);
            }
            res
        },
    }
}

impl InfraFile {
    /// Gives every module the ids of the scopes that enclose it. A module
    /// at the root is enclosed by none.
    pub fn add_scope_id_to_childrens(&mut self)
        ensures
            final(self).deep_view().source_defaults == old(self).deep_view().source_defaults,
            final(self).deep_view().nodes == scoped_children(
                old(self).deep_view().nodes,
                Seq::empty(),
                old(self).deep_view().nodes.len(),
            ),
    {
        let ghost tree = self.nodes.deep_view();
        let none: Vec<String> = Vec::new();
        assert(none.deep_view() =~= Seq::empty());
        let mut nodes: Vec<(String, InfraNode)> = Vec::new();
        let mut i: usize = 0;
        assert(nodes.deep_view() =~= scoped_children(tree, Seq::empty(), 0));
        while i < self.nodes.len()
            invariant
                i <= self.nodes@.len(),
                tree == self.nodes.deep_view(),
                none.deep_view() == Seq::<Seq<char>>::empty(),
                nodes.deep_view() == scoped_children(tree, Seq::empty(), i as nat),
            decreases self.nodes@.len() - i,
        {
            assert(tree[i as int] == self.nodes@[i as int].deep_view());
            let ghost before = nodes.deep_view();
            let node = node_with_scopes(&self.nodes[i].1, &none);
            nodes.push((self.nodes[i].0.clone(), node));
            assert(nodes.deep_view() =~= before.push(
                (tree[i as int].0, scoped_node(tree[i as int].1, Seq::empty())),
            ));
            i += 1;
        }
        self.nodes = nodes;
    }
}

} // verus!
