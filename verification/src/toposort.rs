//! Depth-first ordering of what a target needs, with cycle detection by
//! temporary and permanent marks.

use crate::digraph::{graph_edges, graph_incoming, graph_nodes, incoming_sources};
use crate::error::StackError;
use crate::plan::{
    depends_on, edges_in_range, has_relevant_cycle, is_chain, lemma_incoming_sources, relevant,
};
use petgraph::graph::DiGraph;
use vstd::prelude::*;

verus! {

/// A sequence of `usize` read as mathematical integers.
pub open spec fn as_ints(s: Seq<usize>) -> Seq<int> {
    s.map_values(|x: usize| x as int)
}

/// `sorted` lists distinct nodes, each after all that it needs of what the
/// target needs.
pub open spec fn is_topological(n: nat, edges: Seq<(int, int)>, target: int, sorted: Seq<int>) -> bool {
    &&& forall|i: int| 0 <= i < sorted.len() ==> 0 <= #[trigger] sorted[i] < n
    &&& sorted.no_duplicates()
    &&& forall|i: int, d: int|
        0 <= i < sorted.len() && #[trigger] depends_on(edges, sorted[i], d) && relevant(
            edges,
            target,
            d,
        ) ==> exists|j: int| 0 <= j < i && sorted[j] == d
}

/// The state of a depth-first search: `stack` is the path of nodes under
/// visit, which carry the temporary mark; `sorted` holds the finished
/// nodes, which carry the permanent one.
pub open spec fn search_state(
    n: nat,
    edges: Seq<(int, int)>,
    target: int,
    temp: Seq<bool>,
    perm: Seq<bool>,
    sorted: Seq<int>,
    stack: Seq<int>,
) -> bool {
    &&& temp.len() == n
    &&& perm.len() == n
    &&& forall|v: int| 0 <= v < n ==> (#[trigger] perm[v] <==> sorted.contains(v))
    &&& forall|v: int| 0 <= v < n ==> (#[trigger] temp[v] <==> stack.contains(v))
    &&& forall|v: int| 0 <= v < n ==> !(#[trigger] temp[v] && perm[v])
    &&& stack.no_duplicates()
    &&& forall|k: int| 0 <= k < stack.len() ==> 0 <= #[trigger] stack[k] < n
    &&& forall|k: int| 0 <= k < stack.len() ==> relevant(edges, target, #[trigger] stack[k])
    &&& forall|k: int|
        0 <= k < stack.len() - 1 ==> depends_on(edges, #[trigger] stack[k], stack[k + 1])
    &&& is_topological(n, edges, target, sorted)
}

/// Distinct numbers below `n` are at most `n` many.
proof fn lemma_distinct_bounded(s: Seq<int>, n: nat)
    requires
        s.no_duplicates(),
        forall|i: int| 0 <= i < s.len() ==> 0 <= #[trigger] s[i] < n,
    ensures
        s.len() <= n,
{
    s.unique_seq_to_set();
    vstd::set_lib::lemma_int_range(0, n as int);
    assert(s.to_set().subset_of(vstd::set_lib::set_int_range(0, n as int))) by {
        assert forall|x: int| s.to_set().contains(x) implies vstd::set_lib::set_int_range(
            0,
            n as int,
        ).contains(x) by {
            let i = choose|i: int| 0 <= i < s.len() && s[i] == x;
            assert(0 <= s[i] < n);
        }
    }
    vstd::set_lib::lemma_len_subset(s.to_set(), vstd::set_lib::set_int_range(0, n as int));
}

/// Meeting a node that is already on the search path closes a cycle.
proof fn lemma_back_edge_is_cycle(edges: Seq<(int, int)>, target: int, stack: Seq<int>, idx: int)
    requires
        stack.contains(idx),
        depends_on(edges, stack.last(), idx),
        relevant(edges, target, idx),
        forall|k: int|
            0 <= k < stack.len() - 1 ==> depends_on(edges, #[trigger] stack[k], stack[k + 1]),
    ensures
        has_relevant_cycle(edges, target),
{
    let k = choose|k: int| 0 <= k < stack.len() && stack[k] == idx;
    let len = stack.len() as int;
    let p = Seq::new(
        (len - k + 1) as nat,
        |i: int|
            if i == 0 {
                idx
            } else {
                stack[len - i]
            },
    );
    assert forall|i: int| 0 <= i < p.len() - 1 implies depends_on(edges, #[trigger] p[i + 1], p[i]) by {
        if i == 0 {
            assert(p[1] == stack.last());
        } else {
            assert(p[i + 1] == stack[len - i - 1]);
            assert(p[i] == stack[(len - i - 1) + 1]);
        }
    }
    assert(is_chain(edges, p));
    assert(p.first() == idx);
    assert(p.last() == stack[k]);
}

/// Visits `idx`: finishes it and all that it needs, or meets the search
/// path again and reports the cycle.
pub(crate) fn visit(
    idx: usize,
    g: &DiGraph<String, ()>,
    target: Ghost<int>,
    rel: &Vec<bool>,
    temp: &mut Vec<bool>,
    perm: &mut Vec<bool>,
    sorted: &mut Vec<usize>,
    stack: Ghost<Seq<int>>,
) -> (res: Result<(), StackError>)
    requires
        edges_in_range(graph_nodes(*g).len(), graph_edges(*g)),
        rel@.len() == graph_nodes(*g).len(),
        forall|v: int|
            0 <= v < rel@.len() ==> (#[trigger] rel@[v] <==> relevant(graph_edges(*g), target@, v)),
        idx < graph_nodes(*g).len(),
        rel@[idx as int],
        stack@.len() > 0 ==> depends_on(graph_edges(*g), stack@.last(), idx as int),
        search_state(
            graph_nodes(*g).len(),
            graph_edges(*g),
            target@,
            old(temp)@,
            old(perm)@,
            as_ints(old(sorted)@),
            stack@,
        ),
    ensures
        match res {
            Ok(()) => {
                &&& search_state(
                    graph_nodes(*g).len(),
                    graph_edges(*g),
                    target@,
                    final(temp)@,
                    final(perm)@,
                    as_ints(final(sorted)@),
                    stack@,
                )
                &&& final(temp)@ == old(temp)@
                &&& final(perm)@[idx as int]
                &&& final(sorted)@.len() >= old(sorted)@.len()
                &&& final(sorted)@.subrange(0, old(sorted)@.len() as int) == old(sorted)@
            },
            Err(e) => e is CycleDetected && has_relevant_cycle(graph_edges(*g), target@),
        },
    decreases graph_nodes(*g).len() - stack@.len(),
{
    let ghost n = graph_nodes(*g).len();
    let ghost edges = graph_edges(*g);
    let ghost t = target@;
    if perm[idx] {
        return Ok(());
    }
    if temp[idx] {
        proof {
            lemma_back_edge_is_cycle(edges, t, stack@, idx as int);
        }
        return Err(StackError::CycleDetected);
    }
    let ghost temp0 = temp@;
    let ghost sorted0 = sorted@;
    temp.set(idx, true);
    let ghost inner = stack@.push(idx as int);
    proof {
        assert(inner.no_duplicates()) by {
            assert(!stack@.contains(idx as int));
        }
        assert forall|v: int| 0 <= v < n implies (#[trigger] temp@[v] <==> inner.contains(v)) by {
            if v == idx as int {
                assert(inner[stack@.len() as int] == v);
            } else if temp0[v] {
                let k = choose|k: int| 0 <= k < stack@.len() && stack@[k] == v;
                assert(inner[k] == v);
            } else if inner.contains(v) {
                let k = choose|k: int| 0 <= k < inner.len() && inner[k] == v;
                assert(stack@[k] == v);
            }
        }
        assert forall|k: int| 0 <= k < inner.len() - 1 implies depends_on(
            edges,
            #[trigger] inner[k],
            inner[k + 1],
        ) by {
            if k < stack@.len() - 1 {
                assert(depends_on(edges, stack@[k], stack@[k + 1]));
            }
        }
        lemma_distinct_bounded(inner, n);
    }
    let deps = graph_incoming(g, idx);
    let ghost inc = incoming_sources(edges, idx as int);
    let mut j: usize = 0;
    while j < deps.len()
        invariant
            n == graph_nodes(*g).len(),
            edges == graph_edges(*g),
            t == target@,
            edges_in_range(n, edges),
            rel@.len() == n,
            forall|v: int| 0 <= v < rel@.len() ==> (#[trigger] rel@[v] <==> relevant(edges, t, v)),
            idx < n,
            inner == stack@.push(idx as int),
            inner.len() <= n,
            j <= deps@.len(),
            deps@.len() == inc.len(),
            forall|k: int| 0 <= k < deps@.len() ==> deps@[k] as int == inc[k],
            inc == incoming_sources(edges, idx as int),
            search_state(n, edges, t, temp@, perm@, as_ints(sorted@), inner),
            temp@ == temp0.update(idx as int, true),
            sorted@.len() >= sorted0.len(),
            sorted@.subrange(0, sorted0.len() as int) == sorted0,
            forall|k: int|
                0 <= k < j && rel@[deps@[k] as int] ==> as_ints(sorted@).contains(
                    #[trigger] deps@[k] as int,
                ),
        decreases deps@.len() - j,
    {
        let dep = deps[j];
        proof {
            assert(inc[j as int] == dep as int);
            lemma_incoming_sources(edges, idx as int, dep as int);
            let e = choose|e: int| 0 <= e < edges.len() && edges[e] == (dep as int, idx as int);
            assert(0 <= edges[e].0 < n);
        }
        if rel[dep] {
            let ghost before = sorted@;
            match visit(dep, g, target, rel, temp, perm, sorted, Ghost(inner)) {
                Err(e) => {
                    return Err(e);
                },
                Ok(()) => {},
            }
            proof {
                assert(sorted@.subrange(0, sorted0.len() as int) =~= sorted0) by {
                    assert forall|i: int| 0 <= i < sorted0.len() implies sorted@[i] == sorted0[i] by {
                        assert(sorted@.subrange(0, before.len() as int)[i] == before[i]);
                        assert(before.subrange(0, sorted0.len() as int)[i] == sorted0[i]);
                    }
                }
                assert forall|k: int| 0 <= k < j && rel@[deps@[k] as int] implies as_ints(
                    sorted@,
                ).contains(#[trigger] deps@[k] as int) by {
                    let x = deps@[k] as int;
                    let i = choose|i: int| 0 <= i < before.len() && as_ints(before)[i] == x;
                    assert(sorted@.subrange(0, before.len() as int)[i] == before[i]);
                    assert(as_ints(sorted@)[i] == x);
                }
            }
        }
        j += 1;
    }
    let ghost temp1 = temp@;
    let ghost perm1 = perm@;
    let ghost sorted1 = sorted@;
    temp.set(idx, false);
    perm.set(idx, true);
    sorted.push(idx);
    proof {
        let s1 = as_ints(sorted1);
        let s2 = as_ints(sorted@);
        assert(s2 =~= s1.push(idx as int));
        assert(temp@ =~= temp0);
        assert(temp1[idx as int]);
        assert(!perm1[idx as int]);
        assert(!s1.contains(idx as int));
        assert(s2.no_duplicates());
        assert forall|v: int| 0 <= v < n implies (#[trigger] perm@[v] <==> s2.contains(v)) by {
            if v == idx as int {
                assert(s2[s1.len() as int] == v);
            } else if perm1[v] {
                let k = choose|k: int| 0 <= k < s1.len() && s1[k] == v;
                assert(s2[k] == v);
            } else if s2.contains(v) {
                let k = choose|k: int| 0 <= k < s2.len() && s2[k] == v;
                assert(s1[k] == v);
            }
        }
        assert forall|v: int| 0 <= v < n implies (#[trigger] temp@[v] <==> stack@.contains(v)) by {
        }
        assert forall|i: int, d: int|
            0 <= i < s2.len() && #[trigger] depends_on(edges, s2[i], d) && relevant(
                edges,
                t,
                d,
            ) implies exists|j: int| 0 <= j < i && s2[j] == d by {
            if i < s1.len() {
                assert(s2[i] == s1[i]);
                let k = choose|k: int| 0 <= k < i && s1[k] == d;
                assert(s2[k] == d);
            } else {
                lemma_incoming_sources(edges, idx as int, d);
                let k = choose|k: int| 0 <= k < inc.len() && inc[k] == d;
                assert(deps@[k] as int == d);
                let e = choose|e: int| 0 <= e < edges.len() && edges[e] == (d, idx as int);
                assert(0 <= edges[e].0 < n);
                assert(rel@[d]);
                assert(s1.contains(deps@[k] as int));
                let m = choose|m: int| 0 <= m < s1.len() && s1[m] == d;
                assert(s2[m] == d);
            }
        }
        assert(sorted@.subrange(0, sorted0.len() as int) =~= sorted0) by {
            assert forall|i: int| 0 <= i < sorted0.len() implies sorted@[i] == sorted0[i] by {
                assert(sorted1.subrange(0, sorted0.len() as int)[i] == sorted0[i]);
            }
        }
    }
    Ok(())
}

} // verus!
