//! Planning over the stored graph: the needed set, the cycle check and the
//! layers, each proved against the definitions of `plan`.

use crate::digraph::{
    graph_edges, graph_incoming, graph_node_indices, graph_nodes, incoming_sources,
};
use crate::error::StackError;
use crate::layering::{build_layers, layers_as_ints, lemma_topological_no_cycle};
use crate::plan::{
    depends_on, edges_in_range, has_relevant_cycle, is_chain, is_plan, lemma_incoming_sources,
    lemma_relevant_step, lemma_target_relevant, relevant,
};
use crate::toposort::{as_ints, visit};
use petgraph::graph::DiGraph;
use vstd::prelude::*;

verus! {

/// How many entries of `s` are `false`.
pub open spec fn count_false(s: Seq<bool>) -> nat
    decreases s.len(),
{
    if s.len() == 0 {
        0
    } else {
        count_false(s.drop_last()) + if s.last() {
            0nat
        } else {
            1nat
        }
    }
}

proof fn lemma_count_false_set(s: Seq<bool>, i: int)
    requires
        0 <= i < s.len(),
        !s[i],
    ensures
        count_false(s.update(i, true)) + 1 == count_false(s),
    decreases s.len(),
{
    let t = s.update(i, true);
    if i == s.len() - 1 {
        assert(t.drop_last() =~= s.drop_last());
    } else {
        lemma_count_false_set(s.drop_last(), i);
        assert(t.drop_last() =~= s.drop_last().update(i, true));
    }
}

/// The graph is one that planning can work on: its edges join nodes.
pub open spec fn graph_wf(g: DiGraph<String, ()>) -> bool {
    edges_in_range(graph_nodes(g).len(), graph_edges(g))
}

/// A set of marks that holds the target and, with every module, what that
/// module depends on, holds all that the target needs.
proof fn lemma_closed_marks_cover(
    edges: Seq<(int, int)>,
    target: int,
    marks: Seq<bool>,
    p: Seq<int>,
    i: int,
)
    requires
        edges_in_range(marks.len(), edges),
        0 <= target < marks.len(),
        marks[target],
        forall|v: int, d: int|
            0 <= v < marks.len() && marks[v] && #[trigger] depends_on(edges, v, d) ==> 0 <= d
                < marks.len() && marks[d],
        is_chain(edges, p),
        p.last() == target,
        0 <= i < p.len(),
    ensures
        0 <= p[i] < marks.len(),
        marks[p[i]],
    decreases p.len() - i,
{
    if i == p.len() - 1 {
    } else {
        lemma_closed_marks_cover(edges, target, marks, p, i + 1);
        assert(depends_on(edges, p[i + 1], p[i]));
    }
}

/// Marks the target and all that it transitively depends on.
pub(crate) fn mark_relevant(g: &DiGraph<String, ()>, target: usize) -> (rel: Vec<bool>)
    requires
        graph_wf(*g),
        target < graph_nodes(*g).len(),
    ensures
        rel@.len() == graph_nodes(*g).len(),
        forall|v: int|
            0 <= v < rel@.len() ==> (#[trigger] rel@[v] <==> relevant(
                graph_edges(*g),
                target as int,
                v,
            )),
{
    let ghost edges = graph_edges(*g);
    let ghost t = target as int;
    let indices = graph_node_indices(g);
    let n = indices.len();
    let mut rel: Vec<bool> = Vec::new();
    let mut i: usize = 0;
    while i < n
        invariant
            i <= n,
            rel@.len() == i,
            forall|v: int| 0 <= v < i ==> !rel@[v],
        decreases n - i,
    {
        rel.push(false);
        i += 1;
    }
    let mut stack: Vec<usize> = Vec::new();
    stack.push(target);
    proof {
        lemma_target_relevant(edges, t);
        assert(stack@[0] == target);
    }
    while stack.len() > 0
        invariant
            n == graph_nodes(*g).len(),
            edges == graph_edges(*g),
            t == target as int,
            edges_in_range(n as nat, edges),
            target < n,
            rel@.len() == n,
            forall|v: int| 0 <= v < n && #[trigger] rel@[v] ==> relevant(edges, t, v),
            forall|k: int|
                0 <= k < stack@.len() ==> (#[trigger] stack@[k]) < n && relevant(
                    edges,
                    t,
                    stack@[k] as int,
                ),
            forall|v: int, d: int|
                0 <= v < n && rel@[v] && #[trigger] depends_on(edges, v, d) ==> 0 <= d < n && (
                rel@[d] || stack@.contains(d as usize)),
            rel@[t] || stack@.contains(target),
        decreases count_false(rel@), stack@.len(),
    {
        let ghost before = stack@;
        let idx = stack.pop().unwrap();
        assert(before[before.len() - 1] == idx);
        assert(forall|x: usize| before.contains(x) ==> x == idx || stack@.contains(x)) by {
            assert forall|x: usize| before.contains(x) implies x == idx || stack@.contains(x) by {
                let k = choose|k: int| 0 <= k < before.len() && before[k] == x;
                if k < before.len() - 1 {
                    assert(stack@[k] == x);
                }
            }
        }
        if !rel[idx] {
            proof {
                lemma_count_false_set(rel@, idx as int);
            }
            rel.set(idx, true);
            let deps = graph_incoming(g, idx);
            let ghost inc = incoming_sources(edges, idx as int);
            let ghost base = stack@;
            let mut j: usize = 0;
            while j < deps.len()
                invariant
                    j <= deps@.len(),
                    deps@.len() == inc.len(),
                    forall|k: int| 0 <= k < deps@.len() ==> deps@[k] as int == inc[k],
                    inc == incoming_sources(edges, idx as int),
                    edges_in_range(n as nat, edges),
                    idx < n,
                    relevant(edges, t, idx as int),
                    forall|k: int|
                        0 <= k < stack@.len() ==> (#[trigger] stack@[k]) < n && relevant(
                            edges,
                            t,
                            stack@[k] as int,
                        ),
                    forall|x: usize| base.contains(x) ==> stack@.contains(x),
                    forall|k: int| 0 <= k < j ==> stack@.contains(#[trigger] deps@[k]),
                decreases deps@.len() - j,
            {
                let dep = deps[j];
                let ghost prev = stack@;
                proof {
                    assert(inc.contains(dep as int)) by {
                        assert(inc[j as int] == dep as int);
                    }
                    lemma_incoming_sources(edges, idx as int, dep as int);
                    lemma_relevant_step(edges, t, idx as int, dep as int);
                    let k = choose|k: int| 0 <= k < edges.len() && edges[k] == (dep as int, idx as int);
                    assert(0 <= edges[k].0 < n);
                }
                stack.push(dep);
                proof {
                    assert(stack@[prev.len() as int] == dep);
                    assert forall|x: usize| prev.contains(x) implies stack@.contains(x) by {
                        let k = choose|k: int| 0 <= k < prev.len() && prev[k] == x;
                        assert(stack@[k] == x);
                    }
                }
                j += 1;
            }
            proof {
                assert forall|v: int, d: int|
                    0 <= v < n && rel@[v] && #[trigger] depends_on(edges, v, d) implies 0 <= d < n
                    && (rel@[d] || stack@.contains(d as usize)) by {
                    if v == idx as int {
                        lemma_incoming_sources(edges, idx as int, d);
                        let k = choose|k: int| 0 <= k < inc.len() && inc[k] == d;
                        assert(stack@.contains(deps@[k]));
                        let e = choose|e: int| 0 <= e < edges.len() && edges[e] == (d, v);
                        assert(0 <= edges[e].0 < n);
                    } else {
                        if !rel@[d] {
                            assert(before.contains(d as usize));
                        }
                    }
                }
            }
        }
    }
    proof {
        assert(!stack@.contains(target));
        assert forall|v: int| 0 <= v < rel@.len() && relevant(edges, t, v) implies #[trigger] rel@[v] by {
            let p = choose|p: Seq<int>| #[trigger] is_chain(edges, p) && p.first() == v && p.last() == t;
            assert forall|a: int, d: int|
                0 <= a < rel@.len() && rel@[a] && #[trigger] depends_on(edges, a, d) implies 0 <= d
                < rel@.len() && rel@[d] by {
                assert(!stack@.contains(d as usize));
            }
            lemma_closed_marks_cover(edges, t, rel@, p, 0);
        }
    }
    rel
}

/// Plans the layers for `target`: marks what it needs, orders that
/// depth-first to rule out cycles, and splits it into layers.
pub(crate) fn plan_layers(g: &DiGraph<String, ()>, target: usize) -> (res: Result<
    Vec<Vec<usize>>,
    StackError,
>)
    requires
        graph_wf(*g),
        target < graph_nodes(*g).len(),
    ensures
        match res {
            Ok(layers) => {
                &&& !has_relevant_cycle(graph_edges(*g), target as int)
                &&& is_plan(
                    graph_nodes(*g).len(),
                    graph_edges(*g),
                    target as int,
                    layers_as_ints(layers@),
                )
            },
            Err(e) => e is CycleDetected && has_relevant_cycle(graph_edges(*g), target as int),
        },
{
    let ghost edges = graph_edges(*g);
    let ghost t = target as int;
    let rel = mark_relevant(g, target);
    let n = rel.len();
    let mut temp: Vec<bool> = Vec::new();
    let mut perm: Vec<bool> = Vec::new();
    let mut i: usize = 0;
    while i < n
        invariant
            i <= n,
            temp@.len() == i,
            perm@.len() == i,
            forall|v: int| 0 <= v < i ==> !#[trigger] temp@[v],
            forall|v: int| 0 <= v < i ==> !#[trigger] perm@[v],
        decreases n - i,
    {
        temp.push(false);
        perm.push(false);
        i += 1;
    }
    let mut sorted: Vec<usize> = Vec::new();
    proof {
        lemma_target_relevant(edges, t);
        assert(as_ints(sorted@) =~= Seq::<int>::empty());
    }
    match visit(target, g, Ghost(t), &rel, &mut temp, &mut perm, &mut sorted, Ghost(Seq::empty())) {
        Err(e) => {
            return Err(e);
        },
        Ok(()) => {},
    }
    proof {
        lemma_topological_no_cycle(n as nat, edges, t, as_ints(sorted@));
    }
    build_layers(g, target, &rel, Ghost(as_ints(sorted@)))
}

} // verus!
