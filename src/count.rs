//! Which nodes a traversal reaches, and how many edges leave them.

use crate::dag::{members, Dag, NodeId};
use crate::walks::{lemma_closed_walk, lemma_distinct_len, lemma_reaches_self, lemma_reaches_step};
use vstd::prelude::*;

verus! {

broadcast use vstd::std_specs::btree::group_btree_axioms;

/// The edge total over the first `a` nodes is at most that over the first `b`.
pub proof fn lemma_edges_below_mono<T: Ord>(g: &Dag<T>, a: int, b: int)
    requires
        a <= b,
    ensures
        g.reachable_edges_below(a) <= g.reachable_edges_below(b),
    decreases b - a,
{
    if a < b {
        lemma_edges_below_mono(g, a, b - 1);
    }
}

/// A node is reached from a listing of the roots exactly when some root
/// reaches it.
pub proof fn lemma_roots_reached<T: Ord>(g: &Dag<T>, starts: Seq<NodeId>)
    requires
        starts.to_set() == g.roots@,
    ensures
        forall|v: NodeId| #[trigger] g.reached_from(starts, v) == g.reachable(v),
{
    assert forall|v: NodeId| #[trigger] g.reached_from(starts, v) == g.reachable(v) by {
        if g.reachable(v) {
            let r = choose|r: NodeId| #[trigger] g.roots@.contains(r) && g.reaches(r, v);
            assert(starts.to_set().contains(r));
            let j0 = choose|j0: int| 0 <= j0 < starts.len() && starts[j0] == r;
            assert(g.reaches(starts[j0], v));
        }
        if g.reached_from(starts, v) {
            let j0 = choose|j0: int| 0 <= j0 < starts.len() && g.reaches(#[trigger] starts[j0], v);
            assert(starts.to_set().contains(starts[j0]));
        }
    }
}

impl<T: Ord> Dag<T> {
    /// Marks each node that some node of `starts` reaches. Each node is
    /// expanded once, so the walk ends on any graph.
    pub(crate) fn reach_marks(&self, starts: &Vec<NodeId>) -> (marks: Vec<bool>)
        requires
            self.wf(),
            forall|j: int| 0 <= j < starts.len() ==> #[trigger] starts@[j] < self.nodes.len(),
        ensures
            marks.len() == self.nodes.len(),
            forall|v: NodeId|
                (v as int) < self.nodes.len() ==> marks@[v as int] == self.reached_from(starts@, v),
    {
        let n = self.nodes.len();
        let mut marks: Vec<bool> = Vec::new();
        while marks.len() < n
            invariant
                marks.len() <= n,
                forall|v: int| 0 <= v < marks.len() ==> !marks@[v],
            decreases n - marks.len(),
        {
            marks.push(false);
        }
        let mut order: Vec<NodeId> = Vec::new();
        let mut j: usize = 0;
        while j < starts.len()
            invariant
                self.wf(),
                n == self.nodes.len(),
                marks.len() == n,
                j <= starts.len(),
                forall|k: int| 0 <= k < starts.len() ==> #[trigger] starts@[k] < n,
                order@.no_duplicates(),
                forall|k: int|
                    0 <= k < order.len() ==> #[trigger] order@[k] < n && marks@[order@[k] as int],
                forall|v: int| 0 <= v < n && #[trigger] marks@[v] ==> order@.contains(v as NodeId),
                forall|v: int|
                    0 <= v < n && #[trigger] marks@[v] ==> self.reached_from(starts@, v as NodeId),
                forall|k: int| 0 <= k < j ==> marks@[#[trigger] starts@[k] as int],
            decreases starts.len() - j,
        {
            let s = starts[j];
            if !marks[s] {
                let ghost old_order = order@;
                marks.set(s, true);
                order.push(s);
                proof {
                    lemma_reaches_self(self, s);
                    assert(self.reaches(starts@[j as int], s));
                    assert(order@[order.len() - 1] == s);
                    assert forall|v: int| 0 <= v < n && #[trigger] marks@[v] implies order@.contains(
                        v as NodeId,
                    ) by {
                        if v != s as int {
                            assert(old_order.contains(v as NodeId));
                            let k = choose|k: int| 0 <= k < old_order.len() && old_order[k] == v as NodeId;
                            assert(order@[k] == v as NodeId);
                        }
                    }
                }
            }
            j = j + 1;
        }
        let mut i: usize = 0;
        while i < order.len()
            invariant
                self.wf(),
                n == self.nodes.len(),
                marks.len() == n,
                forall|k: int| 0 <= k < starts.len() ==> #[trigger] starts@[k] < n,
                order@.no_duplicates(),
                forall|k: int|
                    0 <= k < order.len() ==> #[trigger] order@[k] < n && marks@[order@[k] as int],
                forall|v: int| 0 <= v < n && #[trigger] marks@[v] ==> order@.contains(v as NodeId),
                forall|v: int|
                    0 <= v < n && #[trigger] marks@[v] ==> self.reached_from(starts@, v as NodeId),
                forall|k: int| 0 <= k < starts.len() ==> marks@[#[trigger] starts@[k] as int],
                i <= order.len(),
                forall|k: int, c: NodeId|
                    0 <= k < i && #[trigger] self.edge(order@[k], c) ==> marks@[c as int],
            decreases n - i,
        {
            proof {
                lemma_distinct_len(order@, n as nat);
            }
            let u = order[i];
            let kids = members(&self.nodes[u].children);
            proof {
                assert forall|p: int| 0 <= p < kids.len() implies #[trigger] kids@[p] < n by {
                    assert(kids@.to_set().contains(kids@[p]));
                    assert(self.children_of(u as int).contains(kids@[p]));
                }
            }
            let mut q: usize = 0;
            while q < kids.len()
                invariant
                    self.wf(),
                    n == self.nodes.len(),
                    marks.len() == n,
                    forall|k: int| 0 <= k < starts.len() ==> #[trigger] starts@[k] < n,
                    order@.no_duplicates(),
                    forall|k: int|
                        0 <= k < order.len() ==> #[trigger] order@[k] < n && marks@[order@[k] as int],
                    forall|v: int|
                        0 <= v < n && #[trigger] marks@[v] ==> order@.contains(v as NodeId),
                    forall|v: int|
                        0 <= v < n && #[trigger] marks@[v] ==> self.reached_from(
                            starts@,
                            v as NodeId,
                        ),
                    forall|k: int| 0 <= k < starts.len() ==> marks@[#[trigger] starts@[k] as int],
                    i < order.len(),
                    u == order@[i as int],
                    u < n,
                    marks@[u as int],
                    forall|k: int, c: NodeId|
                        0 <= k < i && #[trigger] self.edge(order@[k], c) ==> marks@[c as int],
                    kids@.to_set() == self.children_of(u as int),
                    forall|p: int| 0 <= p < kids.len() ==> #[trigger] kids@[p] < n,
                    q <= kids.len(),
                    forall|p: int| 0 <= p < q ==> marks@[#[trigger] kids@[p] as int],
                decreases kids.len() - q,
            {
                let c = kids[q];
                proof {
                    assert(kids@.to_set().contains(c));
                    assert(self.children_of(u as int).contains(c));
                }
                if !marks[c] {
                    proof {
                        assert(self.reached_from(starts@, u));
                        let j0 = choose|j0: int|
                            0 <= j0 < starts.len() && self.reaches(#[trigger] starts@[j0], u);
                        lemma_reaches_step(self, starts@[j0], u, c);
                    }
                    let ghost old_order = order@;
                    marks.set(c, true);
                    order.push(c);
                    proof {
                        assert(order@[order.len() - 1] == c);
                        assert forall|v: int| 0 <= v < n && #[trigger] marks@[v] implies order@.contains(
                            v as NodeId,
                        ) by {
                            if v != c as int {
                                assert(old_order.contains(v as NodeId));
                                let k = choose|k: int|
                                    0 <= k < old_order.len() && old_order[k] == v as NodeId;
                                assert(order@[k] == v as NodeId);
                            }
                        }
                    }
                }
                assert(marks@[kids@[q as int] as int]);
                q = q + 1;
            }
            proof {
                assert forall|c: NodeId| #[trigger] self.edge(u, c) implies marks@[c as int] by {
                    assert(kids@.to_set().contains(c));
                    let p = choose|p: int| 0 <= p < kids.len() && kids@[p] == c;
                    assert(marks@[kids@[p] as int]);
                }
            }
            i = i + 1;
        }
        proof {
            assert forall|x: NodeId, c: NodeId|
                (x as int) < marks@.len() && marks@[x as int] && #[trigger] self.edge(x, c) implies (
                c as int) < marks@.len() && marks@[c as int] by {
                assert(marks@[x as int]);
                assert(order@.contains(x));
                let k = choose|k: int| 0 <= k < order.len() && order@[k] == x;
                assert(self.edge(order@[k], c));
            }
            assert forall|v: NodeId| (v as int) < self.nodes.len() implies marks@[v as int]
                == self.reached_from(starts@, v) by {
                if self.reached_from(starts@, v) {
                    let j0 = choose|j0: int|
                        0 <= j0 < starts.len() && self.reaches(#[trigger] starts@[j0], v);
                    let w = choose|w: Seq<NodeId>|
                        #[trigger] self.is_walk(w) && w[0] == starts@[j0] && w.last() == v;
                    lemma_closed_walk(self, marks@, w);
                }
            }
        }
        marks
    }

    /// Counts the edges leaving every node that a traversal from the roots
    /// reaches; each reached node's edges count once, however many paths lead
    /// to it. On a graph in which every node is reached this is the number of
    /// edges. The traversal ends on every graph, a cyclic one included.
    pub fn count_edges(&self) -> (r: u32)
        requires
            self.wf(),
            self.reachable_edge_count() <= u32::MAX,
        ensures
            r == self.reachable_edge_count(),
    {
        let starts = members(&self.roots);
        proof {
            assert forall|j: int| 0 <= j < starts.len() implies #[trigger] starts@[j]
                < self.nodes.len() by {
                assert(starts@.to_set().contains(starts@[j]));
            }
        }
        let marks = self.reach_marks(&starts);
        let n = self.nodes.len();
        let mut total: u32 = 0;
        let mut i: usize = 0;
        while i < n
            invariant
                self.wf(),
                n == self.nodes.len(),
                marks.len() == n,
                starts@.to_set() == self.roots@,
                self.reachable_edge_count() <= u32::MAX,
                forall|v: NodeId|
                    (v as int) < self.nodes.len() ==> marks@[v as int] == self.reached_from(
                        starts@,
                        v,
                    ),
                i <= n,
                total == self.reachable_edges_below(i as int),
            decreases n - i,
        {
            proof {
                lemma_edges_below_mono(self, i + 1, n as int);
                lemma_roots_reached(self, starts@);
                assert(marks@[i as int] == self.reachable(i as NodeId));
            }
            if marks[i] {
                let d = self.nodes[i].children.len();
                total = total + d as u32;
            }
            i = i + 1;
        }
        total
    }
}

} // verus!
