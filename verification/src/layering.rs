//! Partition of what a target needs into layers, each holding the modules
//! whose needs lie in earlier layers.

use crate::digraph::{graph_edges, graph_incoming, graph_node_indices, graph_nodes, incoming_sources};
use crate::error::StackError;
use crate::plan::{
    depends_on, done_before, edges_in_range, has_relevant_cycle, in_layer,
    in_layer_pred, is_chain, is_plan, layer_seq, lemma_chain_relevant, lemma_filter_member,
    lemma_incoming_sources, lemma_layer_members, lemma_needs_target_is_cycle,
    lemma_target_relevant, node_range, planned, ready, relevant,
};
use crate::toposort::{as_ints, is_topological};
use petgraph::graph::DiGraph;
use vstd::prelude::*;

verus! {

/// Layers of node indices read as sequences of integers.
pub open spec fn layers_as_ints(layers: Seq<Vec<usize>>) -> Seq<Seq<int>> {
    Seq::new(layers.len(), |k: int| as_ints(layers[k]@))
}

/// Planned and in none of the first `k` layers.
pub open spec fn pending(n: nat, edges: Seq<(int, int)>, target: int, k: nat, v: int) -> bool {
    planned(n, edges, target, v) && !done_before(n, edges, target, k).contains(v)
}

pub open spec fn pending_pred(n: nat, edges: Seq<(int, int)>, target: int, k: nat) -> spec_fn(
    int,
) -> bool {
    |v: int| pending(n, edges, target, k, v)
}

pub open spec fn ready_pred(n: nat, edges: Seq<(int, int)>, target: int, k: nat) -> spec_fn(
    int,
) -> bool {
    |v: int| ready(edges, target, done_before(n, edges, target, k), v)
}

pub open spec fn unready_pred(n: nat, edges: Seq<(int, int)>, target: int, k: nat) -> spec_fn(
    int,
) -> bool {
    |v: int| !ready(edges, target, done_before(n, edges, target, k), v)
}

/// Filtering twice is filtering by the conjunction.
proof fn lemma_filter_filter<A>(
    s: Seq<A>,
    p: spec_fn(A) -> bool,
    q: spec_fn(A) -> bool,
    r: spec_fn(A) -> bool,
)
    requires
        forall|x: A| #[trigger] r(x) == (p(x) && q(x)),
    ensures
        s.filter(p).filter(q) == s.filter(r),
    decreases s.len(),
{
    reveal(Seq::filter);
    if s.len() == 0 {
    } else {
        let front = s.drop_last();
        let x = s.last();
        lemma_filter_filter(front, p, q, r);
        assert(s =~= front.push(x));
        front.lemma_filter_push(x, p);
        front.lemma_filter_push(x, r);
        front.filter(p).lemma_filter_push(x, q);
    }
}

/// A chain that ends in something listed by a topological order lies in
/// that order as a whole.
proof fn lemma_sorted_covers(
    n: nat,
    edges: Seq<(int, int)>,
    target: int,
    sorted: Seq<int>,
    p: Seq<int>,
    i: int,
)
    requires
        is_topological(n, edges, target, sorted),
        is_chain(edges, p),
        sorted.contains(p.last()),
        relevant(edges, target, p.last()),
        0 <= i < p.len(),
    ensures
        sorted.contains(p[i]),
    decreases p.len() - i,
{
    if i == p.len() - 1 {
    } else {
        lemma_sorted_covers(n, edges, target, sorted, p, i + 1);
        lemma_chain_relevant(edges, target, p, i);
        let a = choose|a: int| 0 <= a < sorted.len() && sorted[a] == p[i + 1];
        assert(depends_on(edges, sorted[a], p[i]));
    }
}

/// Along a chain, positions in a topological order grow.
proof fn lemma_chain_positions(
    n: nat,
    edges: Seq<(int, int)>,
    target: int,
    sorted: Seq<int>,
    p: Seq<int>,
    i: int,
)
    requires
        is_topological(n, edges, target, sorted),
        is_chain(edges, p),
        sorted.contains(p.last()),
        relevant(edges, target, p.last()),
        1 <= i < p.len(),
    ensures
        exists|a: int, b: int|
            0 <= a < b < sorted.len() && #[trigger] sorted[a] == p[0] && #[trigger] sorted[b]
                == p[i],
    decreases i,
{
    lemma_sorted_covers(n, edges, target, sorted, p, i);
    lemma_chain_relevant(edges, target, p, i - 1);
    let c = choose|c: int| 0 <= c < sorted.len() && sorted[c] == p[i];
    assert(depends_on(edges, p[(i - 1) + 1], p[i - 1]));
    assert(depends_on(edges, sorted[c], p[i - 1]));
    let b = choose|b: int| 0 <= b < c && sorted[b] == p[i - 1];
    if i == 1 {
        assert(sorted[b] == p[0] && sorted[c] == p[i]);
    } else {
        lemma_chain_positions(n, edges, target, sorted, p, i - 1);
        let (a, b2) = choose|a: int, b2: int|
            0 <= a < b2 < sorted.len() && #[trigger] sorted[a] == p[0] && #[trigger] sorted[b2]
                == p[i - 1];
        assert(b2 == b);
        assert(sorted[a] == p[0] && sorted[c] == p[i]);
    }
}

/// Where a topological order of what the target needs exists, nothing that
/// the target needs lies on a cycle.
pub proof fn lemma_topological_no_cycle(
    n: nat,
    edges: Seq<(int, int)>,
    target: int,
    sorted: Seq<int>,
)
    requires
        is_topological(n, edges, target, sorted),
        sorted.contains(target),
    ensures
        !has_relevant_cycle(edges, target),
{
    if has_relevant_cycle(edges, target) {
        let p = choose|p: Seq<int>|
            #[trigger] is_chain(edges, p) && p.len() >= 2 && p.first() == p.last() && relevant(
                edges,
                target,
                p.first(),
            );
        let q = choose|q: Seq<int>|
            #[trigger] is_chain(edges, q) && q.first() == p.last() && q.last() == target;
        lemma_target_relevant(edges, target);
        lemma_sorted_covers(n, edges, target, sorted, q, 0);
        lemma_chain_positions(n, edges, target, sorted, p, p.len() - 1);
        let (a, b) = choose|a: int, b: int|
            0 <= a < b < sorted.len() && #[trigger] sorted[a] == p[0] && #[trigger] sorted[b]
                == p[p.len() - 1];
        assert(sorted[a] == sorted[b]);
    }
}

/// The first position at or before `hi` that holds a pending module.
proof fn first_pending(
    n: nat,
    edges: Seq<(int, int)>,
    target: int,
    k: nat,
    sorted: Seq<int>,
    hi: int,
) -> (i: int)
    requires
        0 <= hi < sorted.len(),
        pending(n, edges, target, k, sorted[hi]),
    ensures
        0 <= i <= hi,
        pending(n, edges, target, k, sorted[i]),
        forall|j: int| 0 <= j < i ==> !pending(n, edges, target, k, #[trigger] sorted[j]),
    decreases hi,
{
    if exists|j: int| 0 <= j < hi && pending(n, edges, target, k, #[trigger] sorted[j]) {
        let j = choose|j: int| 0 <= j < hi && pending(n, edges, target, k, #[trigger] sorted[j]);
        first_pending(n, edges, target, k, sorted, j)
    } else {
        hi
    }
}

/// While a module is pending, the next layer is not empty.
proof fn lemma_some_ready(
    n: nat,
    edges: Seq<(int, int)>,
    target: int,
    sorted: Seq<int>,
    k: nat,
    v: int,
) -> (w: int)
    requires
        is_topological(n, edges, target, sorted),
        sorted.contains(target),
        pending(n, edges, target, k, v),
    ensures
        in_layer(n, edges, target, k, w),
{
    lemma_topological_no_cycle(n, edges, target, sorted);
    lemma_target_relevant(edges, target);
    let q = choose|q: Seq<int>| #[trigger] is_chain(edges, q) && q.first() == v && q.last() == target;
    lemma_sorted_covers(n, edges, target, sorted, q, 0);
    let hi = choose|hi: int| 0 <= hi < sorted.len() && sorted[hi] == v;
    let i = first_pending(n, edges, target, k, sorted, hi);
    let w = sorted[i];
    let done = done_before(n, edges, target, k);
    assert forall|d: int| #[trigger] depends_on(edges, w, d) && relevant(edges, target, d) implies done.contains(
        d,
    ) by {
        assert(depends_on(edges, sorted[i], d));
        let j = choose|j: int| 0 <= j < i && sorted[j] == d;
        assert(!pending(n, edges, target, k, sorted[j]));
        assert(0 <= sorted[j] < n);
        if d == target {
            lemma_needs_target_is_cycle(edges, target, w);
        }
    }
    w
}

/// Whether everything that `idx` needs of what the target needs is assigned.
fn all_needs_assigned(
    g: &DiGraph<String, ()>,
    idx: usize,
    rel: &Vec<bool>,
    assigned: &Vec<bool>,
    target: Ghost<int>,
    done: Ghost<Set<int>>,
) -> (res: bool)
    requires
        edges_in_range(graph_nodes(*g).len(), graph_edges(*g)),
        idx < graph_nodes(*g).len(),
        rel@.len() == graph_nodes(*g).len(),
        assigned@.len() == graph_nodes(*g).len(),
        forall|v: int|
            0 <= v < rel@.len() ==> (#[trigger] rel@[v] <==> relevant(graph_edges(*g), target@, v)),
        forall|v: int| 0 <= v < assigned@.len() ==> (#[trigger] assigned@[v] <==> done@.contains(v)),
    ensures
        res == ready(graph_edges(*g), target@, done@, idx as int),
{
    let ghost edges = graph_edges(*g);
    let ghost n = graph_nodes(*g).len();
    let deps = graph_incoming(g, idx);
    let ghost inc = incoming_sources(edges, idx as int);
    let mut j: usize = 0;
    while j < deps.len()
        invariant
            j <= deps@.len(),
            deps@.len() == inc.len(),
            forall|k: int| 0 <= k < deps@.len() ==> deps@[k] as int == inc[k],
            inc == incoming_sources(edges, idx as int),
            edges == graph_edges(*g),
            n == graph_nodes(*g).len(),
            edges_in_range(n, edges),
            rel@.len() == n,
            assigned@.len() == n,
            forall|v: int| 0 <= v < rel@.len() ==> (#[trigger] rel@[v] <==> relevant(edges, target@, v)),
            forall|v: int| 0 <= v < assigned@.len() ==> (#[trigger] assigned@[v] <==> done@.contains(v)),
            forall|k: int|
                0 <= k < j && relevant(edges, target@, #[trigger] inc[k]) ==> done@.contains(inc[k]),
        decreases deps@.len() - j,
    {
        let dep = deps[j];
        proof {
            assert(inc[j as int] == dep as int);
            lemma_incoming_sources(edges, idx as int, dep as int);
            let e = choose|e: int| 0 <= e < edges.len() && edges[e] == (dep as int, idx as int);
            assert(0 <= edges[e].0 < n);
        }
        if rel[dep] && !assigned[dep] {
            assert(!ready(edges, target@, done@, idx as int)) by {
                assert(depends_on(edges, idx as int, dep as int));
            }
            return false;
        }
        j += 1;
    }
    proof {
        assert forall|d: int| #[trigger] depends_on(edges, idx as int, d) && relevant(
            edges,
            target@,
            d,
        ) implies done@.contains(d) by {
            lemma_incoming_sources(edges, idx as int, d);
            let k = choose|k: int| 0 <= k < inc.len() && inc[k] == d;
            assert(relevant(edges, target@, inc[k]));
        }
    }
    true
}

/// Splits the needed modules into layers.
pub(crate) fn build_layers(
    g: &DiGraph<String, ()>,
    target: usize,
    rel: &Vec<bool>,
    sorted: Ghost<Seq<int>>,
) -> (res: Result<Vec<Vec<usize>>, StackError>)
    requires
        edges_in_range(graph_nodes(*g).len(), graph_edges(*g)),
        target < graph_nodes(*g).len(),
        rel@.len() == graph_nodes(*g).len(),
        forall|v: int|
            0 <= v < rel@.len() ==> (#[trigger] rel@[v] <==> relevant(
                graph_edges(*g),
                target as int,
                v,
            )),
        is_topological(graph_nodes(*g).len(), graph_edges(*g), target as int, sorted@),
        sorted@.contains(target as int),
    ensures
        res matches Ok(layers) && is_plan(
            graph_nodes(*g).len(),
            graph_edges(*g),
            target as int,
            layers_as_ints(layers@),
        ),
{
    let ghost edges = graph_edges(*g);
    let ghost t = target as int;
    let indices = graph_node_indices(g);
    let n = indices.len();
    let ghost nn = n as nat;
    let mut remaining: Vec<usize> = Vec::new();
    let mut assigned: Vec<bool> = Vec::new();
    let mut v: usize = 0;
    proof {
        reveal(Seq::filter);
        assert(node_range(nn).take(0) =~= Seq::<int>::empty());
    }
    while v < n
        invariant
            v <= n,
            nn == n,
            n == graph_nodes(*g).len(),
            edges == graph_edges(*g),
            t == target as int,
            rel@.len() == n,
            forall|x: int| 0 <= x < rel@.len() ==> (#[trigger] rel@[x] <==> relevant(edges, t, x)),
            assigned@.len() == v,
            forall|x: int| 0 <= x < v ==> !#[trigger] assigned@[x],
            forall|j: int| 0 <= j < remaining@.len() ==> #[trigger] remaining@[j] < n,
            as_ints(remaining@) == node_range(nn).take(v as int).filter(
                pending_pred(nn, edges, t, 0),
            ),
        decreases n - v,
    {
        proof {
            let front = node_range(nn).take(v as int);
            assert(node_range(nn).take(v + 1) =~= front.push(v as int));
            front.lemma_filter_push(v as int, pending_pred(nn, edges, t, 0));
        }
        if rel[v] && v != target {
            let ghost prev = remaining@;
            remaining.push(v);
            assert(as_ints(remaining@) =~= as_ints(prev).push(v as int));
        }
        assigned.push(false);
        v += 1;
    }
    assert(node_range(nn).take(n as int) =~= node_range(nn));
    let mut layers: Vec<Vec<usize>> = Vec::new();
    while remaining.len() > 0
        invariant
            nn == n,
            n == graph_nodes(*g).len(),
            edges == graph_edges(*g),
            t == target as int,
            edges_in_range(nn, edges),
            rel@.len() == n,
            forall|x: int| 0 <= x < rel@.len() ==> (#[trigger] rel@[x] <==> relevant(edges, t, x)),
            is_topological(nn, edges, t, sorted@),
            sorted@.contains(t),
            assigned@.len() == n,
            forall|x: int|
                0 <= x < n ==> (#[trigger] assigned@[x] <==> done_before(
                    nn,
                    edges,
                    t,
                    layers@.len() as nat,
                ).contains(x)),
            forall|j: int| 0 <= j < remaining@.len() ==> #[trigger] remaining@[j] < n,
            as_ints(remaining@) == node_range(nn).filter(
                pending_pred(nn, edges, t, layers@.len() as nat),
            ),
            forall|k: int|
                0 <= k < layers@.len() ==> as_ints(#[trigger] layers@[k]@) == layer_seq(
                    nn,
                    edges,
                    t,
                    k as nat,
                ) && layers@[k]@.len() > 0,
        decreases remaining@.len(),
    {
        let ghost round = layers@.len() as nat;
        let ghost done = done_before(nn, edges, t, round);
        let ghost pool = as_ints(remaining@);
        let mut layer: Vec<usize> = Vec::new();
        let mut next: Vec<usize> = Vec::new();
        let mut i: usize = 0;
        proof {
            reveal(Seq::filter);
            assert(pool.take(0) =~= Seq::<int>::empty());
        }
        while i < remaining.len()
            invariant
                i <= remaining@.len(),
                nn == n,
                n == graph_nodes(*g).len(),
                edges == graph_edges(*g),
                t == target as int,
                edges_in_range(nn, edges),
                rel@.len() == n,
                forall|x: int|
                    0 <= x < rel@.len() ==> (#[trigger] rel@[x] <==> relevant(edges, t, x)),
                assigned@.len() == n,
                done == done_before(nn, edges, t, round),
                forall|x: int| 0 <= x < n ==> (#[trigger] assigned@[x] <==> done.contains(x)),
                forall|j: int| 0 <= j < remaining@.len() ==> #[trigger] remaining@[j] < n,
                pool == as_ints(remaining@),
                layer@.len() + next@.len() == i,
                forall|j: int| 0 <= j < next@.len() ==> #[trigger] next@[j] < n,
                as_ints(layer@) == pool.take(i as int).filter(ready_pred(nn, edges, t, round)),
                as_ints(next@) == pool.take(i as int).filter(unready_pred(nn, edges, t, round)),
            decreases remaining@.len() - i,
        {
            let idx = remaining[i];
            let ok = all_needs_assigned(g, idx, rel, &assigned, Ghost(t), Ghost(done));
            proof {
                let front = pool.take(i as int);
                assert(pool.take(i + 1) =~= front.push(idx as int));
                front.lemma_filter_push(idx as int, ready_pred(nn, edges, t, round));
                front.lemma_filter_push(idx as int, unready_pred(nn, edges, t, round));
            }
            if ok {
                let ghost prev = layer@;
                layer.push(idx);
                assert(as_ints(layer@) =~= as_ints(prev).push(idx as int));
            } else {
                let ghost prev = next@;
                next.push(idx);
                assert(as_ints(next@) =~= as_ints(prev).push(idx as int));
            }
            i += 1;
        }
        proof {
            assert(pool.take(remaining@.len() as int) =~= pool);
            lemma_filter_filter(
                node_range(nn),
                pending_pred(nn, edges, t, round),
                ready_pred(nn, edges, t, round),
                in_layer_pred(nn, edges, t, round),
            );
            assert forall|x: int| #[trigger]
                pending_pred(nn, edges, t, round + 1)(x) == (pending_pred(nn, edges, t, round)(x)
                    && unready_pred(nn, edges, t, round)(x)) by {
                assert(done_before(nn, edges, t, round + 1).contains(x) == (done.contains(x)
                    || in_layer(nn, edges, t, round, x)));
            }
            lemma_filter_filter(
                node_range(nn),
                pending_pred(nn, edges, t, round),
                unready_pred(nn, edges, t, round),
                pending_pred(nn, edges, t, round + 1),
            );
            assert(as_ints(layer@) == layer_seq(nn, edges, t, round));
            let first = remaining@[0] as int;
            assert(pool[0] == first);
            lemma_filter_member(node_range(nn), pending_pred(nn, edges, t, round), first);
            let w = lemma_some_ready(nn, edges, t, sorted@, round, first);
            lemma_layer_members(nn, edges, t, round, w);
            assert(layer@.len() == as_ints(layer@).len());
            assert(layer@.len() > 0);
        }
        if layer.len() == 0 {
            return Err(StackError::LayeringError);
        }
        let mut m: usize = 0;
        while m < layer.len()
            invariant
                m <= layer@.len(),
                nn == n,
                assigned@.len() == n,
                as_ints(layer@) == layer_seq(nn, edges, t, round),
                forall|x: int|
                    0 <= x < n ==> (#[trigger] assigned@[x] <==> done.contains(x) || as_ints(
                        layer@,
                    ).take(m as int).contains(x)),
            decreases layer@.len() - m,
        {
            let idx = layer[m];
            proof {
                assert(as_ints(layer@)[m as int] == idx as int);
                lemma_layer_members(nn, edges, t, round, idx as int);
            }
            let ghost before = assigned@;
            assigned.set(idx, true);
            proof {
                let whole = as_ints(layer@);
                let short = whole.take(m as int);
                let grown = whole.take(m + 1);
                assert(grown =~= short.push(idx as int));
                assert forall|x: int| 0 <= x < n implies (#[trigger] assigned@[x] <==> done.contains(x)
                    || grown.contains(x)) by {
                    if x == idx as int {
                        assert(grown[m as int] == x);
                    } else {
                        if short.contains(x) {
                            let j = choose|j: int| 0 <= j < short.len() && short[j] == x;
                            assert(grown[j] == x);
                        }
                        if grown.contains(x) {
                            let j = choose|j: int| 0 <= j < grown.len() && grown[j] == x;
                            assert(short[j] == x);
                        }
                    }
                }
            }
            m += 1;
        }
        proof {
            let whole = as_ints(layer@);
            assert(whole.take(layer@.len() as int) =~= whole);
            assert forall|x: int| 0 <= x < n implies (#[trigger] assigned@[x] <==> done_before(
                nn,
                edges,
                t,
                round + 1,
            ).contains(x)) by {
                lemma_layer_members(nn, edges, t, round, x);
                assert(done_before(nn, edges, t, round + 1).contains(x) == (done.contains(x)
                    || in_layer(nn, edges, t, round, x)));
            }
        }
        let ghost earlier = layers@;
        layers.push(layer);
        proof {
            assert forall|k: int| 0 <= k < layers@.len() implies as_ints(#[trigger] layers@[k]@)
                == layer_seq(nn, edges, t, k as nat) && layers@[k]@.len() > 0 by {
                if k < earlier.len() {
                    assert(layers@[k] == earlier[k]);
                }
            }
            next@.lemma_filter_len(|x: usize| true);
            assert(next@.len() < remaining@.len());
        }
        remaining = next;
    }
    proof {
        let count = layers@.len() as nat;
        let plan = layers_as_ints(layers@);
        assert forall|x: int| #[trigger] planned(nn, edges, t, x) implies done_before(
            nn,
            edges,
            t,
            count,
        ).contains(x) by {
            if !done_before(nn, edges, t, count).contains(x) {
                assert(node_range(nn)[x] == x);
                lemma_filter_member(node_range(nn), pending_pred(nn, edges, t, count), x);
                assert(as_ints(remaining@).contains(x));
            }
        }
        assert forall|k: int| 0 <= k < plan.len() implies #[trigger] plan[k] == layer_seq(
            nn,
            edges,
            t,
            k as nat,
        ) && plan[k].len() > 0 by {
            assert(plan[k] == as_ints(layers@[k]@));
        }
    }
    Ok(layers)
}

} // verus!
