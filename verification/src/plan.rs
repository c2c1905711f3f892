//! The mathematics of execution planning: which modules a target needs,
//! when those needs contain a cycle, and the layers in which they can run.
//!
//! Modules are node indices `0..n`; an edge `(d, v)` says that `v` depends
//! on `d`.

use crate::digraph::incoming_sources;
use vstd::prelude::*;

verus! {

/// Every endpoint of every edge is a node.
pub open spec fn edges_in_range(n: nat, edges: Seq<(int, int)>) -> bool {
    forall|k: int|
        0 <= k < edges.len() ==> 0 <= (#[trigger] edges[k]).0 < n && 0 <= edges[k].1 < n
}

/// `v` depends directly on `d`.
pub open spec fn depends_on(edges: Seq<(int, int)>, v: int, d: int) -> bool {
    edges.contains((d, v))
}

/// `p` is a non-empty walk in which every node is a direct dependency of
/// the next one.
pub open spec fn is_chain(edges: Seq<(int, int)>, p: Seq<int>) -> bool {
    &&& p.len() >= 1
    &&& forall|i: int| 0 <= i < p.len() - 1 ==> depends_on(edges, #[trigger] p[i + 1], p[i])
}

/// `v` is the target or one of its transitive dependencies.
pub open spec fn relevant(edges: Seq<(int, int)>, target: int, v: int) -> bool {
    exists|p: Seq<int>| #[trigger] is_chain(edges, p) && p.first() == v && p.last() == target
}

/// Some module that the target needs depends, directly or not, on itself.
pub open spec fn has_relevant_cycle(edges: Seq<(int, int)>, target: int) -> bool {
    exists|p: Seq<int>|
        #[trigger] is_chain(edges, p) && p.len() >= 2 && p.first() == p.last() && relevant(
            edges,
            target,
            p.first(),
        )
}

/// Every dependency of `v` that the target needs is in `done`.
pub open spec fn ready(edges: Seq<(int, int)>, target: int, done: Set<int>, v: int) -> bool {
    forall|d: int|
        #[trigger] depends_on(edges, v, d) && relevant(edges, target, d) ==> done.contains(d)
}

/// `v` is a module other than the target that the target needs.
pub open spec fn planned(n: nat, edges: Seq<(int, int)>, target: int, v: int) -> bool {
    0 <= v < n && v != target && relevant(edges, target, v)
}

/// The modules that lie in one of the first `k` layers.
pub open spec fn done_before(n: nat, edges: Seq<(int, int)>, target: int, k: nat) -> Set<int>
    decreases k, 0int,
{
    if k == 0 {
        Set::empty()
    } else {
        Set::new(
            |v: int|
                done_before(n, edges, target, (k - 1) as nat).contains(v) || in_layer(
                    n,
                    edges,
                    target,
                    (k - 1) as nat,
                    v,
                ),
        )
    }
}

/// `v` belongs to layer `k`: it is planned, lies in no earlier layer, and
/// all that it needs lies in earlier layers.
pub open spec fn in_layer(n: nat, edges: Seq<(int, int)>, target: int, k: nat, v: int) -> bool
    decreases k, 1int,
{
    &&& planned(n, edges, target, v)
    &&& !done_before(n, edges, target, k).contains(v)
    &&& ready(edges, target, done_before(n, edges, target, k), v)
}

/// The node indices `0..n` in ascending order.
pub open spec fn node_range(n: nat) -> Seq<int> {
    Seq::new(n, |i: int| i)
}

/// Membership in layer `k`, as a predicate on nodes.
pub open spec fn in_layer_pred(n: nat, edges: Seq<(int, int)>, target: int, k: nat) -> spec_fn(
    int,
) -> bool {
    |v: int| in_layer(n, edges, target, k, v)
}

/// Layer `k`, its modules in ascending index order.
pub open spec fn layer_seq(n: nat, edges: Seq<(int, int)>, target: int, k: nat) -> Seq<int> {
    node_range(n).filter(in_layer_pred(n, edges, target, k))
}

/// The first `count` layers hold every planned module.
pub open spec fn all_planned(n: nat, edges: Seq<(int, int)>, target: int, count: nat) -> bool {
    forall|v: int|
        #[trigger] planned(n, edges, target, v) ==> done_before(n, edges, target, count).contains(
            v,
        )
}

/// `layers` is the execution plan for `target`: layer after layer as
/// `layer_seq` defines them, none of them empty, until every planned module
/// is placed.
pub open spec fn is_plan(n: nat, edges: Seq<(int, int)>, target: int, layers: Seq<Seq<int>>) -> bool {
    &&& forall|k: int|
        0 <= k < layers.len() ==> #[trigger] layers[k] == layer_seq(n, edges, target, k as nat)
            && layers[k].len() > 0
    &&& all_planned(n, edges, target, layers.len())
}

/// In `order`, whatever a module needs stands strictly before it.
pub open spec fn respects_dependencies(edges: Seq<(int, int)>, target: int, order: Seq<int>) -> bool {
    forall|i: int, d: int|
        0 <= i < order.len() && #[trigger] depends_on(edges, order[i], d) && relevant(
            edges,
            target,
            d,
        ) ==> exists|j: int| 0 <= j < i && order[j] == d
}

/// An edge into `a` shows among the incoming sources of `a`, and nothing
/// else does.
pub proof fn lemma_incoming_sources(edges: Seq<(int, int)>, a: int, d: int)
    ensures
        incoming_sources(edges, a).contains(d) <==> depends_on(edges, a, d),
    decreases edges.len(),
{
    if edges.len() == 0 {
    } else {
        let earlier = edges.drop_last();
        lemma_incoming_sources(earlier, a, d);
        let inc = incoming_sources(earlier, a);
        if depends_on(edges, a, d) {
            let k = choose|k: int| 0 <= k < edges.len() && edges[k] == (d, a);
            if k == edges.len() - 1 {
                assert((seq![edges.last().0] + inc)[0] == d);
            } else {
                assert(earlier[k] == (d, a));
                assert(inc.contains(d));
                let j = choose|j: int| 0 <= j < inc.len() && inc[j] == d;
                if edges.last().1 == a {
                    assert((seq![edges.last().0] + inc)[j + 1] == d);
                }
            }
        }
        if incoming_sources(edges, a).contains(d) {
            let s = incoming_sources(edges, a);
            let j = choose|j: int| 0 <= j < s.len() && s[j] == d;
            if edges.last().1 == a && j == 0 {
                assert(edges[edges.len() - 1] == (d, a));
            } else {
                if edges.last().1 == a {
                    assert(inc[j - 1] == d);
                }
                assert(inc.contains(d));
                let k = choose|k: int| 0 <= k < earlier.len() && earlier[k] == (d, a);
                assert(edges[k] == (d, a));
            }
        }
    }
}

/// The target needs itself.
pub proof fn lemma_target_relevant(edges: Seq<(int, int)>, target: int)
    ensures
        relevant(edges, target, target),
{
    let p = seq![target];
    assert(is_chain(edges, p));
    assert(p.first() == target && p.last() == target);
}

/// What a needed module depends on is needed too.
pub proof fn lemma_relevant_step(edges: Seq<(int, int)>, target: int, v: int, d: int)
    requires
        relevant(edges, target, v),
        depends_on(edges, v, d),
    ensures
        relevant(edges, target, d),
{
    let p = choose|p: Seq<int>| #[trigger] is_chain(edges, p) && p.first() == v && p.last() == target;
    let q = seq![d] + p;
    assert forall|i: int| 0 <= i < q.len() - 1 implies depends_on(edges, #[trigger] q[i + 1], q[i]) by {
        if i == 0 {
            assert(q[1] == p[0]);
        } else {
            assert(q[i + 1] == p[i]);
            assert(q[i] == p[i - 1]);
            assert(depends_on(edges, p[(i - 1) + 1], p[i - 1]));
        }
    }
    assert(is_chain(edges, q));
    assert(q.first() == d && q.last() == target);
}

/// Every node of a chain that ends in a needed module is needed.
pub proof fn lemma_chain_relevant(edges: Seq<(int, int)>, target: int, p: Seq<int>, i: int)
    requires
        is_chain(edges, p),
        relevant(edges, target, p.last()),
        0 <= i < p.len(),
    ensures
        relevant(edges, target, p[i]),
    decreases p.len() - i,
{
    if i == p.len() - 1 {
    } else {
        lemma_chain_relevant(edges, target, p, i + 1);
        assert(depends_on(edges, p[i + 1], p[i]));
        lemma_relevant_step(edges, target, p[i + 1], p[i]);
    }
}

/// A module that the target needs and that needs the target closes a cycle.
pub proof fn lemma_needs_target_is_cycle(edges: Seq<(int, int)>, target: int, w: int)
    requires
        relevant(edges, target, w),
        depends_on(edges, w, target),
    ensures
        has_relevant_cycle(edges, target),
{
    let p = choose|p: Seq<int>| #[trigger] is_chain(edges, p) && p.first() == w && p.last() == target;
    let q = seq![target] + p;
    assert forall|i: int| 0 <= i < q.len() - 1 implies depends_on(edges, #[trigger] q[i + 1], q[i]) by {
        if i == 0 {
            assert(q[1] == p[0]);
        } else {
            assert(q[i + 1] == p[(i - 1) + 1]);
            assert(q[i] == p[i - 1]);
        }
    }
    assert(is_chain(edges, q));
    assert(q.first() == target && q.last() == target);
    lemma_target_relevant(edges, target);
}

/// What a filter keeps: the members that satisfy the predicate.
pub proof fn lemma_filter_member<A>(s: Seq<A>, p: spec_fn(A) -> bool, x: A)
    ensures
        s.filter(p).contains(x) <==> s.contains(x) && p(x),
{
    if s.filter(p).contains(x) {
        s.lemma_filter_contains_rev(p, x);
        let i = choose|i: int| 0 <= i < s.filter(p).len() && s.filter(p)[i] == x;
        s.lemma_filter_pred(p, i);
    }
    if s.contains(x) && p(x) {
        let i = choose|i: int| 0 <= i < s.len() && s[i] == x;
        s.lemma_filter_contains(p, i);
    }
}

/// The members of layer `k`.
pub proof fn lemma_layer_members(n: nat, edges: Seq<(int, int)>, target: int, k: nat, v: int)
    ensures
        layer_seq(n, edges, target, k).contains(v) <==> in_layer(n, edges, target, k, v),
{
    lemma_filter_member(node_range(n), in_layer_pred(n, edges, target, k), v);
    if 0 <= v < n {
        assert(node_range(n)[v] == v);
    }
}

/// A filter of a sequence without duplicates has none.
proof fn lemma_filter_no_duplicates<A>(s: Seq<A>, p: spec_fn(A) -> bool)
    requires
        s.no_duplicates(),
    ensures
        s.filter(p).no_duplicates(),
    decreases s.len(),
{
    reveal(Seq::filter);
    if s.len() == 0 {
    } else {
        let front = s.drop_last();
        let x = s.last();
        lemma_filter_no_duplicates(front, p);
        if front.filter(p).contains(x) {
            front.lemma_filter_contains_rev(p, x);
            let i = choose|i: int| 0 <= i < front.len() && front[i] == x;
            assert(s[i] == s[s.len() - 1]);
        }
    }
}

/// The target and, before it, the layers one after the other.
pub open spec fn execution_order(layers: Seq<Seq<int>>, target: int) -> Seq<int> {
    layers.flatten().push(target)
}

/// What the first `k` layers of a plan hold, laid end to end: exactly the
/// modules done before layer `k`, none twice, each after what it needs.
proof fn lemma_plan_prefix(n: nat, edges: Seq<(int, int)>, target: int, layers: Seq<Seq<int>>, k: int)
    requires
        0 <= k <= layers.len(),
        forall|j: int|
            0 <= j < layers.len() ==> #[trigger] layers[j] == layer_seq(n, edges, target, j as nat),
    ensures
        forall|x: int|
            layers.take(k).flatten().contains(x) <==> done_before(n, edges, target, k as nat).contains(
                x,
            ),
        layers.take(k).flatten().no_duplicates(),
        respects_dependencies(edges, target, layers.take(k).flatten()),
    decreases k,
{
    let flat = layers.take(k).flatten();
    if k == 0 {
        assert(layers.take(0) =~= Seq::<Seq<int>>::empty());
    } else {
        lemma_plan_prefix(n, edges, target, layers, k - 1);
        let before = layers.take(k - 1).flatten();
        let layer = layers[k - 1];
        let round = (k - 1) as nat;
        assert(layers.take(k) =~= layers.take(k - 1).push(layer));
        layers.take(k - 1).lemma_flatten_push(layer);
        assert(flat =~= before + layer);
        assert(layer == layer_seq(n, edges, target, round));
        assert forall|x: int| flat.contains(x) <==> done_before(n, edges, target, k as nat).contains(
            x,
        ) by {
            lemma_layer_members(n, edges, target, round, x);
            if before.contains(x) {
                let i = choose|i: int| 0 <= i < before.len() && before[i] == x;
                assert(flat[i] == x);
            }
            if layer.contains(x) {
                let i = choose|i: int| 0 <= i < layer.len() && layer[i] == x;
                assert(flat[before.len() + i] == x);
            }
            if flat.contains(x) {
                let i = choose|i: int| 0 <= i < flat.len() && flat[i] == x;
                if i < before.len() {
                    assert(before[i] == x);
                } else {
                    assert(layer[i - before.len()] == x);
                }
            }
        }
        assert(node_range(n).no_duplicates());
        lemma_filter_no_duplicates(node_range(n), in_layer_pred(n, edges, target, round));
        assert forall|i: int, j: int| 0 <= i < before.len() && 0 <= j < layer.len() implies before[i]
            != layer[j] by {
            lemma_layer_members(n, edges, target, round, layer[j]);
            assert(layer.contains(layer[j]));
            assert(before.contains(before[i]));
        }
        vstd::seq_lib::lemma_no_dup_in_concat(before, layer);
        assert forall|i: int, d: int|
            0 <= i < flat.len() && #[trigger] depends_on(edges, flat[i], d) && relevant(
                edges,
                target,
                d,
            ) implies exists|j: int| 0 <= j < i && flat[j] == d by {
            if i < before.len() {
                assert(flat[i] == before[i]);
                let j = choose|j: int| 0 <= j < i && before[j] == d;
                assert(flat[j] == d);
            } else {
                let x = layer[i - before.len()];
                assert(layer.contains(x));
                lemma_layer_members(n, edges, target, round, x);
                assert(done_before(n, edges, target, round).contains(d));
                assert(before.contains(d));
                let j = choose|j: int| 0 <= j < before.len() && before[j] == d;
                assert(flat[j] == d);
            }
        }
    }
}

/// Laid end to end with the target last, the layers of a plan form a
/// topological order of what the target needs: they list the target and
/// its transitive dependencies, each once, and every module stands
/// strictly after each module that it depends on.
pub proof fn lemma_plan_is_topological_order(
    n: nat,
    edges: Seq<(int, int)>,
    target: int,
    layers: Seq<Seq<int>>,
)
    requires
        edges_in_range(n, edges),
        0 <= target < n,
        !has_relevant_cycle(edges, target),
        is_plan(n, edges, target, layers),
    ensures
        respects_dependencies(edges, target, execution_order(layers, target)),
        execution_order(layers, target).no_duplicates(),
        forall|v: int|
            #[trigger] execution_order(layers, target).contains(v) <==> 0 <= v < n && relevant(
                edges,
                target,
                v,
            ),
{
    let count = layers.len() as int;
    assert(layers.take(count) =~= layers);
    lemma_plan_prefix(n, edges, target, layers, count);
    let flat = layers.flatten();
    let order = execution_order(layers, target);
    lemma_target_relevant(edges, target);
    lemma_done_are_planned(n, edges, target, count as nat);
    assert(!flat.contains(target)) by {
        if flat.contains(target) {
            assert(done_before(n, edges, target, count as nat).contains(target));
        }
    }
    assert forall|v: int| #[trigger]
        planned(n, edges, target, v) implies flat.contains(v) by {
        assert(done_before(n, edges, target, count as nat).contains(v));
    }
    assert forall|v: int| #[trigger] order.contains(v) <==> 0 <= v < n && relevant(edges, target, v) by {
        if order.contains(v) {
            let i = choose|i: int| 0 <= i < order.len() && order[i] == v;
            if i < flat.len() {
                assert(flat[i] == v);
                assert(flat.contains(v));
            }
        }
        if 0 <= v < n && relevant(edges, target, v) {
            if v == target {
                assert(order[flat.len() as int] == v);
            } else {
                assert(planned(n, edges, target, v));
                assert(flat.contains(v));
                let i = choose|i: int| 0 <= i < flat.len() && flat[i] == v;
                assert(order[i] == v);
            }
        }
    }
    assert forall|i: int, d: int|
        0 <= i < order.len() && #[trigger] depends_on(edges, order[i], d) && relevant(
            edges,
            target,
            d,
        ) implies exists|j: int| 0 <= j < i && order[j] == d by {
        if i < flat.len() {
            assert(order[i] == flat[i]);
            let j = choose|j: int| 0 <= j < i && flat[j] == d;
            assert(order[j] == d);
        } else {
            if d == target {
                lemma_needs_target_is_cycle(edges, target, target);
            }
            let e = choose|e: int| 0 <= e < edges.len() && edges[e] == (d, target);
            assert(0 <= edges[e].0 < n);
            assert(planned(n, edges, target, d));
            assert(flat.contains(d));
            let j = choose|j: int| 0 <= j < flat.len() && flat[j] == d;
            assert(order[j] == d);
        }
    }
}

/// Only planned modules are ever done.
proof fn lemma_done_are_planned(n: nat, edges: Seq<(int, int)>, target: int, k: nat)
    ensures
        forall|v: int|
            #[trigger] done_before(n, edges, target, k).contains(v) ==> planned(n, edges, target, v),
    decreases k,
{
    if k > 0 {
        lemma_done_are_planned(n, edges, target, (k - 1) as nat);
        assert forall|v: int| #[trigger]
            done_before(n, edges, target, k).contains(v) implies planned(n, edges, target, v) by {
            assert(done_before(n, edges, target, (k - 1) as nat).contains(v) || in_layer(
                n,
                edges,
                target,
                (k - 1) as nat,
                v,
            ));
        }
    }
}

} // verus!
