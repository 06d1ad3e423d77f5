//! Laws relating the operations of a graph: what the edge count covers, which
//! ways of building a graph leave a cycle for `cycle_check` to find, and what
//! transitive reduction keeps.

use crate::dag::{Dag, NodeId};
use crate::walks::{
    lemma_distinct_len, lemma_reaches_self, lemma_reaches_step, lemma_reaches_trans,
    lemma_walk_in_arena, lemma_walk_prefix, lemma_walk_push, lemma_walk_stretch,
};
use vstd::prelude::*;

verus! {

/// A reduction of a graph is a subgraph of it.
pub proof fn lemma_reduction_is_subgraph<T: Ord>(before: &Dag<T>, after: &Dag<T>)
    requires
        after.is_reduction_of(*before),
    ensures
        after.is_subgraph_of(*before),
{
    assert forall|i: int| 0 <= i < after.nodes.len() implies #[trigger] after.children_of(
        i,
    ).subset_of(before.children_of(i)) by {
        assert(after.children_of(i) == before.reduced_children(i));
    }
}

/// A walk of a subgraph is a walk of the graph.
pub proof fn lemma_sub_walk<T: Ord>(small: &Dag<T>, big: &Dag<T>, w: Seq<NodeId>)
    requires
        small.is_subgraph_of(*big),
        small.is_walk(w),
    ensures
        big.is_walk(w),
{
    assert forall|k: int| 0 <= k < w.len() - 1 implies #[trigger] big.edge(w[k], w[k + 1]) by {
        assert(small.edge(w[k], w[k + 1]));
        assert(small.children_of(w[k] as int).subset_of(big.children_of(w[k] as int)));
    }
}

/// What a subgraph reaches, the graph reaches; a cycle of a subgraph within
/// reach of its roots is one of the graph.
pub proof fn lemma_sub_reach<T: Ord>(small: &Dag<T>, big: &Dag<T>)
    requires
        small.is_subgraph_of(*big),
    ensures
        forall|u: NodeId, v: NodeId| #[trigger] small.reaches(u, v) ==> big.reaches(u, v),
        forall|v: NodeId| #[trigger] small.reachable(v) ==> big.reachable(v),
        small.has_reachable_cycle() ==> big.has_reachable_cycle(),
        forall|u: NodeId, x: NodeId|
            #[trigger] small.reaches_by_detour(u, x) ==> big.reaches_by_detour(u, x),
{
    assert forall|u: NodeId, v: NodeId| #[trigger] small.reaches(u, v) implies big.reaches(u, v) by {
        let w = choose|w: Seq<NodeId>| #[trigger] small.is_walk(w) && w[0] == u && w.last() == v;
        lemma_sub_walk(small, big, w);
    }
    assert forall|v: NodeId| #[trigger] small.reachable(v) implies big.reachable(v) by {
        let r = choose|r: NodeId| #[trigger] small.roots@.contains(r) && small.reaches(r, v);
        assert(big.reaches(r, v));
    }
    if small.has_reachable_cycle() {
        let w = choose|w: Seq<NodeId>|
            #[trigger] small.is_walk(w) && small.roots@.contains(w[0]) && !w.no_duplicates();
        lemma_sub_walk(small, big, w);
    }
    assert forall|u: NodeId, x: NodeId| #[trigger] small.reaches_by_detour(u, x) implies big.reaches_by_detour(
        u,
        x,
    ) by {
        let (c, g) = choose|c: NodeId, g: NodeId|
            #[trigger] small.edge(u, c) && #[trigger] small.edge(c, g) && small.reaches(g, x);
        assert(small.children_of(u as int).subset_of(big.children_of(u as int)));
        assert(small.children_of(c as int).subset_of(big.children_of(c as int)));
        assert(big.edge(u, c) && big.edge(c, g) && big.reaches(g, x));
    }
}

proof fn lemma_edges_cover_below<T: Ord>(g: &Dag<T>, k: int)
    requires
        0 <= k <= g.nodes.len(),
        forall|v: NodeId| (v as int) < g.nodes.len() ==> g.reachable(v),
    ensures
        g.reachable_edges_below(k) == g.edges_below(k),
    decreases k,
{
    if k > 0 {
        lemma_edges_cover_below(g, k - 1);
        assert(g.reachable((k - 1) as NodeId));
    }
}

/// When a root reaches every node, the edges that leave reached nodes are all
/// the edges of the graph, so the edge count is the number of edges.
pub proof fn lemma_count_covers_all_edges<T: Ord>(g: &Dag<T>)
    requires
        g.wf(),
        forall|v: NodeId| (v as int) < g.nodes.len() ==> g.reachable(v),
    ensures
        g.reachable_edge_count() == g.edge_total(),
{
    lemma_edges_cover_below(g, g.nodes.len() as int);
}

proof fn lemma_sub_count_below<T: Ord>(small: &Dag<T>, big: &Dag<T>, k: int)
    requires
        big.wf(),
        small.is_subgraph_of(*big),
        0 <= k <= small.nodes.len(),
    ensures
        small.reachable_edges_below(k) <= big.reachable_edges_below(k),
    decreases k,
{
    if k > 0 {
        lemma_sub_count_below(small, big, k - 1);
        lemma_sub_reach(small, big);
        let i = k - 1;
        assert(small.children_of(i).subset_of(big.children_of(i)));
        assert(big.children_of(i).finite());
        vstd::set_lib::lemma_len_subset(small.children_of(i), big.children_of(i));
        if small.reachable(i as NodeId) {
            assert(big.reachable(i as NodeId));
        }
    }
}

/// Reduction never raises the edge count.
pub proof fn lemma_reduce_never_raises_count<T: Ord>(before: &Dag<T>, after: &Dag<T>)
    requires
        before.wf(),
        after.is_reduction_of(*before),
    ensures
        after.reachable_edge_count() <= before.reachable_edge_count(),
{
    lemma_reduction_is_subgraph(before, after);
    lemma_sub_count_below(after, before, after.nodes.len() as int);
}

/// Reducing a reduced graph changes nothing: the reduced graph still has no
/// cycle within reach of its roots, and a second reduction of it keeps every
/// payload, root and edge.
pub proof fn lemma_reduce_idempotent<T: Ord>(before: &Dag<T>, mid: &Dag<T>, after: &Dag<T>)
    requires
        before.wf(),
        !before.has_reachable_cycle(),
        mid.is_reduction_of(*before),
        after.is_reduction_of(*mid),
    ensures
        !mid.has_reachable_cycle(),
        after.nodes.len() == mid.nodes.len(),
        after.roots@ == mid.roots@,
        forall|i: int|
            0 <= i < after.nodes.len() ==> #[trigger] after.nodes@[i].elem == mid.nodes@[i].elem,
        forall|i: int| 0 <= i < after.nodes.len() ==> #[trigger] after.children_of(i) == mid.children_of(i),
{
    lemma_reduction_is_subgraph(before, mid);
    lemma_sub_reach(mid, before);
    assert forall|i: int| 0 <= i < after.nodes.len() implies #[trigger] after.children_of(i)
        == mid.children_of(i) by {
        assert(after.children_of(i) == mid.reduced_children(i));
        if mid.reachable(i as NodeId) {
            assert(before.reachable(i as NodeId));
            assert(mid.children_of(i) == before.reduced_children(i));
            assert forall|x: NodeId| #[trigger] mid.children_of(i).contains(x) implies !mid.reaches_by_detour(
                i as NodeId,
                x,
            ) by {
                if mid.reaches_by_detour(i as NodeId, x) {
                    assert(before.reaches_by_detour(i as NodeId, x));
                }
            }
            assert(mid.reduced_children(i) =~= mid.children_of(i));
        }
    }
}

/// From a walk that starts at a root, builds a walk with the same ends whose
/// every edge survives reduction: while some edge of the walk has a detour,
/// the detour replaces it, which makes the walk longer; without a cycle in
/// reach of the roots a walk from a root visits each node at most once, so
/// this ends.
proof fn lemma_surviving_walk<T: Ord>(before: &Dag<T>, after: &Dag<T>, w: Seq<NodeId>) -> (w2: Seq<
    NodeId,
>)
    requires
        before.wf(),
        !before.has_reachable_cycle(),
        after.is_reduction_of(*before),
        before.is_walk(w),
        before.roots@.contains(w[0]),
    ensures
        after.is_walk(w2),
        w2[0] == w[0],
        w2.last() == w.last(),
    decreases before.nodes.len() - w.len(),
{
    let n = before.nodes.len();
    lemma_walk_in_arena(before, w);
    assert(w.no_duplicates());
    lemma_distinct_len(w, n as nat);
    if exists|k: int| 0 <= k < w.len() - 1 && #[trigger] before.reaches_by_detour(w[k], w[k + 1]) {
        let k = choose|k: int|
            0 <= k < w.len() - 1 && #[trigger] before.reaches_by_detour(w[k], w[k + 1]);
        let (c, g) = choose|c: NodeId, g: NodeId|
            #[trigger] before.edge(w[k], c) && #[trigger] before.edge(c, g) && before.reaches(
                g,
                w[k + 1],
            );
        let q = choose|q: Seq<NodeId>| #[trigger] before.is_walk(q) && q[0] == g && q.last() == w[k + 1];
        let head = w.take(k + 1);
        let tail = w.skip(k + 2);
        let w1 = head + seq![c] + q + tail;
        let ql = q.len() as int;
        assert(w1.len() == w.len() + ql);
        assert forall|j: int| 0 <= j < w1.len() - 1 implies #[trigger] before.edge(w1[j], w1[j + 1]) by {
            if j < k {
                assert(w1[j] == w[j] && w1[j + 1] == w[j + 1]);
                assert(before.edge(w[j], w[j + 1]));
            } else if j == k {
                assert(w1[j] == w[k] && w1[j + 1] == c);
            } else if j == k + 1 {
                assert(w1[j] == c && w1[j + 1] == q[0]);
            } else if j < k + 1 + ql {
                let t = j - (k + 2);
                assert(w1[j] == q[t] && w1[j + 1] == q[t + 1]);
                assert(before.edge(q[t], q[t + 1]));
            } else if j == k + 1 + ql {
                assert(w1[j] == q[ql - 1] && w1[j + 1] == w[k + 2]);
                assert(before.edge(w[k + 1], w[k + 1 + 1]));
            } else {
                let t = j - ql;
                assert(w1[j] == w[t] && w1[j + 1] == w[t + 1]);
                assert(before.edge(w[t], w[t + 1]));
            }
        }
        assert(before.is_walk(w1));
        assert(w1[0] == w[0]);
        assert(w1.last() == w.last()) by {
            if k + 2 < w.len() {
                assert(w1.last() == tail.last());
            } else {
                assert(w1.last() == q.last());
            }
        }
        lemma_walk_in_arena(before, w1);
        assert(w1.no_duplicates());
        lemma_distinct_len(w1, n as nat);
        lemma_surviving_walk(before, after, w1)
    } else {
        assert forall|j: int| 0 <= j < w.len() - 1 implies #[trigger] after.edge(w[j], w[j + 1]) by {
            assert(before.edge(w[j], w[j + 1]));
            lemma_walk_prefix(before, w, j + 1);
            assert(before.reaches(w[0], w[j])) by {
                assert(before.is_walk(w.take(j + 1)));
                assert(w.take(j + 1).last() == w[j]);
            }
            assert(before.reachable(w[j]));
            assert(!before.reaches_by_detour(w[j], w[j + 1]));
            assert(after.children_of(w[j] as int) == before.reduced_children(w[j] as int));
        }
        w
    }
}

/// Reduction of a graph without a cycle in reach of its roots disconnects no
/// node from the roots: each node that a root reaches before is reached by a
/// root after.
pub proof fn lemma_reduce_keeps_reachable<T: Ord>(before: &Dag<T>, after: &Dag<T>)
    requires
        before.wf(),
        !before.has_reachable_cycle(),
        after.is_reduction_of(*before),
    ensures
        forall|v: NodeId| #[trigger] before.reachable(v) ==> after.reachable(v),
{
    assert forall|v: NodeId| #[trigger] before.reachable(v) implies after.reachable(v) by {
        let r = choose|r: NodeId| #[trigger] before.roots@.contains(r) && before.reaches(r, v);
        let w = choose|w: Seq<NodeId>| #[trigger] before.is_walk(w) && w[0] == r && w.last() == v;
        let w2 = lemma_surviving_walk(before, after, w);
        assert(after.roots@.contains(r));
        assert(after.reaches(r, v));
    }
}

/// A node has at most as many children as the arena has nodes.
proof fn lemma_children_len<T: Ord>(g: &Dag<T>, i: int)
    requires
        g.wf(),
        0 <= i < g.nodes.len(),
    ensures
        g.children_of(i).len() <= g.nodes.len(),
{
    let n = g.nodes.len() as int;
    let f = |x: NodeId| x as int;
    let kids = g.children_of(i);
    let image = kids.map(f);
    assert(vstd::relations::injective_on(f, kids));
    vstd::set_lib::lemma_map_size(kids, image, f);
    vstd::set_lib::lemma_int_range(0, n);
    assert(image.subset_of(vstd::set_lib::set_int_range(0, n))) by {
        assert forall|y: int| image.contains(y) implies vstd::set_lib::set_int_range(0, n).contains(
            y,
        ) by {
            let x = choose|x: NodeId| kids.contains(x) && f(x) == y;
            assert(g.children_of(i).contains(x));
        }
    }
    vstd::set_lib::lemma_len_subset(image, vstd::set_lib::set_int_range(0, n));
}

proof fn lemma_edges_below_bound<T: Ord>(g: &Dag<T>, k: int)
    requires
        g.wf(),
        0 <= k <= g.nodes.len(),
    ensures
        g.reachable_edges_below(k) <= k * g.nodes.len(),
    decreases k,
{
    if k > 0 {
        let n = g.nodes.len() as int;
        lemma_edges_below_bound(g, k - 1);
        lemma_children_len(g, k - 1);
        assert((k - 1) * n + n == k * n) by (nonlinear_arith);
    }
}

/// The edge count of a graph of `n` nodes is at most `n * n`, so it fits in
/// a `u32` whenever `n` is below 65536.
pub proof fn lemma_edge_count_bound<T: Ord>(g: &Dag<T>)
    requires
        g.wf(),
    ensures
        g.reachable_edge_count() <= g.nodes.len() * g.nodes.len(),
{
    lemma_edges_below_bound(g, g.nodes.len() as int);
}

/// A graph with no nodes has no cycle.
pub proof fn lemma_empty_acyclic<T: Ord>(g: &Dag<T>)
    requires
        g.nodes.len() == 0,
    ensures
        g.is_acyclic(),
{
    assert forall|w: Seq<NodeId>| #[trigger] g.is_walk(w) implies w.no_duplicates() by {
        if w.len() > 1 {
            assert(g.edge(w[0int], w[0int + 1]));
        }
    }
}

/// A graph without a cycle has none within reach of its roots, so
/// `cycle_check` answers false on it.
pub proof fn lemma_acyclic_no_reachable_cycle<T: Ord>(g: &Dag<T>)
    requires
        g.is_acyclic(),
    ensures
        !g.has_reachable_cycle(),
{
}

/// Adding a node keeps a graph free of cycles.
pub proof fn lemma_leaf_keeps_acyclic<T: Ord>(before: &Dag<T>, after: &Dag<T>)
    requires
        before.wf(),
        before.is_acyclic(),
        after.adds_leaf(*before),
    ensures
        after.is_acyclic(),
{
    let n = before.nodes.len();
    assert forall|w: Seq<NodeId>| #[trigger] after.is_walk(w) implies w.no_duplicates() by {
        assert forall|k: int| 0 <= k < w.len() - 1 implies #[trigger] before.edge(w[k], w[k + 1]) by {
            assert(after.edge(w[k], w[k + 1]));
            if w[k] as int == n {
                assert(after.children_of(n as int).contains(w[k + 1]));
            }
            assert(after.nodes@[w[k] as int] == before.nodes@[w[k] as int]);
        }
        assert(before.is_walk(w));
    }
}

/// A walk of a graph after an edge from `p` to `c` is added either was a
/// walk before, or before it its start reached `p` and `c` reached its end.
proof fn lemma_edge_walk_split<T: Ord>(before: &Dag<T>, after: &Dag<T>, p: NodeId, c: NodeId, w: Seq<NodeId>)
    requires
        after.adds_edge(*before, p, c),
        after.is_walk(w),
    ensures
        before.is_walk(w) || (before.reaches(w[0], p) && before.reaches(c, w.last())),
    decreases w.len(),
{
    if w.len() > 1 {
        let w0 = w.drop_last();
        let x = w0.last();
        let y = w.last();
        assert(after.is_walk(w0)) by {
            assert forall|k: int| 0 <= k < w0.len() - 1 implies #[trigger] after.edge(w0[k], w0[k + 1]) by {
                assert(after.edge(w[k], w[k + 1]));
            }
        }
        lemma_edge_walk_split(before, after, p, c, w0);
        assert(after.edge(w[w.len() - 2], w[w.len() - 2 + 1]));
        assert(w0.push(y) == w);
        let old_edge = before.edge(x, y);
        if x != p {
            assert(after.nodes@[x as int] == before.nodes@[x as int]);
        }
        if old_edge {
            if before.is_walk(w0) {
                lemma_walk_push(before, w0, y);
            } else {
                lemma_reaches_step(before, c, x, y);
            }
        } else {
            assert(x == p && y == c);
            lemma_reaches_self(before, c);
            if before.is_walk(w0) {
                assert(before.reaches(w0[0], x));
            }
        }
    }
}

/// Adding an edge from `p` to `c` to a graph without a cycle, where `c` does
/// not already reach `p`, leaves it without a cycle.
pub proof fn lemma_edge_keeps_acyclic<T: Ord>(before: &Dag<T>, after: &Dag<T>, p: NodeId, c: NodeId)
    requires
        before.is_acyclic(),
        after.adds_edge(*before, p, c),
        !before.reaches(c, p),
    ensures
        after.is_acyclic(),
{
    assert forall|w: Seq<NodeId>| #[trigger] after.is_walk(w) implies w.no_duplicates() by {
        if !w.no_duplicates() {
            let (i0, j0) = choose|i0: int, j0: int|
                0 <= i0 < w.len() && 0 <= j0 < w.len() && i0 != j0 && w[i0] == w[j0];
            let i = if i0 < j0 { i0 } else { j0 };
            let j = if i0 < j0 { j0 } else { i0 };
            lemma_walk_stretch(after, w, i, j);
            let s = w.subrange(i, j + 1);
            lemma_edge_walk_split(before, after, p, c, s);
            if before.is_walk(s) {
                assert(s[0] == s[j - i]);
                assert(s.no_duplicates());
            } else {
                assert(s.last() == s[0]);
                lemma_reaches_trans(before, c, s[0], p);
            }
        }
    }
}

/// Adding an edge from `p` to `c` where `c` already reaches `p`, and some root
/// reaches `p` afterwards, puts a cycle within reach of the roots, so
/// `cycle_check` answers true.
pub proof fn lemma_closing_edge_makes_cycle<T: Ord>(before: &Dag<T>, after: &Dag<T>, p: NodeId, c: NodeId)
    requires
        after.adds_edge(*before, p, c),
        before.reaches(c, p),
        after.reachable(p),
    ensures
        after.has_reachable_cycle(),
{
    let r = choose|r: NodeId| #[trigger] after.roots@.contains(r) && after.reaches(r, p);
    let w = choose|w: Seq<NodeId>| #[trigger] after.is_walk(w) && w[0] == r && w.last() == p;
    let q = choose|q: Seq<NodeId>| #[trigger] before.is_walk(q) && q[0] == c && q.last() == p;
    assert forall|k: int| 0 <= k < q.len() - 1 implies #[trigger] after.edge(q[k], q[k + 1]) by {
        assert(before.edge(q[k], q[k + 1]));
        if q[k] != p {
            assert(after.nodes@[q[k] as int] == before.nodes@[q[k] as int]);
        }
    }
    let v = w + q;
    let m = w.len() as int;
    assert forall|k: int| 0 <= k < v.len() - 1 implies #[trigger] after.edge(v[k], v[k + 1]) by {
        if k < m - 1 {
            assert(v[k] == w[k] && v[k + 1] == w[k + 1]);
            assert(after.edge(w[k], w[k + 1]));
        } else if k == m - 1 {
            assert(v[k] == p && v[k + 1] == c);
        } else {
            assert(v[k] == q[k - m] && v[k + 1] == q[k - m + 1]);
            assert(after.edge(q[k - m], q[k - m + 1]));
        }
    }
    assert(v[m - 1] == v[m + q.len() - 1]);
    assert(after.is_walk(v) && after.roots@.contains(v[0]) && !v.no_duplicates());
}

} // verus!
