//! Transitive reduction: removing each edge whose head its tail also reaches
//! along a longer walk.

use crate::count::lemma_roots_reached;
use crate::dag::{members, Dag, NodeId};
use vstd::prelude::*;

verus! {

broadcast use vstd::std_specs::btree::group_btree_axioms;

impl<T: Ord> Dag<T> {
    /// The children of `u` that `u` also reaches by a detour.
    fn detour_children(&self, u: NodeId) -> (r: Vec<NodeId>)
        requires
            self.wf(),
            u < self.nodes.len(),
        ensures
            r@.to_set() == self.children_of(u as int).filter(
                |x: NodeId| self.reaches_by_detour(u, x),
            ),
    {
        let n = self.nodes.len();
        let kids = members(&self.nodes[u].children);
        proof {
            assert forall|p: int| 0 <= p < kids.len() implies #[trigger] kids@[p] < n by {
                assert(kids@.to_set().contains(kids@[p]));
                assert(self.children_of(u as int).contains(kids@[p]));
            }
        }
        let mut grand: Vec<NodeId> = Vec::new();
        let mut q: usize = 0;
        while q < kids.len()
            invariant
                self.wf(),
                n == self.nodes.len(),
                u < n,
                kids@.to_set() == self.children_of(u as int),
                forall|p: int| 0 <= p < kids.len() ==> #[trigger] kids@[p] < n,
                q <= kids.len(),
                forall|j: int| 0 <= j < grand.len() ==> #[trigger] grand@[j] < n,
                forall|g: NodeId|
                    grand@.contains(g) <==> exists|p: int|
                        0 <= p < q && #[trigger] self.edge(kids@[p], g),
            decreases kids.len() - q,
        {
            let c = kids[q];
            let gs = members(&self.nodes[c].children);
            let ghost before_gs = grand@;
            let mut t: usize = 0;
            while t < gs.len()
                invariant
                    self.wf(),
                    n == self.nodes.len(),
                    c < n,
                    c == kids@[q as int],
                    q < kids.len(),
                    gs@.to_set() == self.children_of(c as int),
                    t <= gs.len(),
                    forall|j: int| 0 <= j < grand.len() ==> #[trigger] grand@[j] < n,
                    grand@ == before_gs + gs@.take(t as int),
                decreases gs.len() - t,
            {
                proof {
                    assert(gs@.to_set().contains(gs@[t as int]));
                    assert(self.children_of(c as int).contains(gs@[t as int]));
                }
                grand.push(gs[t]);
                proof {
                    assert(gs@.take(t + 1) == gs@.take(t as int).push(gs@[t as int]));
                }
                t = t + 1;
            }
            proof {
                assert(gs@.take(t as int) == gs@);
                assert forall|g: NodeId|
                    grand@.contains(g) <==> exists|p: int|
                        0 <= p < q + 1 && #[trigger] self.edge(kids@[p], g) by {
                    if grand@.contains(g) {
                        let j = choose|j: int| 0 <= j < grand.len() && grand@[j] == g;
                        if j >= before_gs.len() {
                            assert(gs@[j - before_gs.len()] == g);
                            assert(gs@.to_set().contains(g));
                            assert(self.edge(kids@[q as int], g));
                        } else {
                            assert(before_gs.contains(g));
                        }
                    }
                    if exists|p: int| 0 <= p < q + 1 && #[trigger] self.edge(kids@[p], g) {
                        let p = choose|p: int| 0 <= p < q + 1 && #[trigger] self.edge(kids@[p], g);
                        if p == q {
                            assert(gs@.to_set().contains(g));
                            let j = choose|j: int| 0 <= j < gs.len() && gs@[j] == g;
                            assert(grand@[before_gs.len() + j] == g);
                        } else {
                            assert(before_gs.contains(g));
                            let j = choose|j: int| 0 <= j < before_gs.len() && before_gs[j] == g;
                            assert(grand@[j] == g);
                        }
                    }
                }
            }
            q = q + 1;
        }
        let below = self.reach_marks(&grand);
        let mut r: Vec<NodeId> = Vec::new();
        let mut q: usize = 0;
        while q < kids.len()
            invariant
                self.wf(),
                n == self.nodes.len(),
                u < n,
                kids@.to_set() == self.children_of(u as int),
                forall|p: int| 0 <= p < kids.len() ==> #[trigger] kids@[p] < n,
                below.len() == n,
                forall|v: NodeId|
                    (v as int) < self.nodes.len() ==> below@[v as int] == self.reached_from(
                        grand@,
                        v,
                    ),
                forall|g: NodeId|
                    grand@.contains(g) <==> exists|p: int|
                        0 <= p < kids.len() && #[trigger] self.edge(kids@[p], g),
                q <= kids.len(),
                forall|x: NodeId|
                    r@.contains(x) <==> exists|p: int|
                        0 <= p < q && #[trigger] kids@[p] == x && below@[x as int],
            decreases kids.len() - q,
        {
            let x = kids[q];
            let ghost old_r = r@;
            if below[x] {
                r.push(x);
            }
            proof {
                assert forall|y: NodeId|
                    r@.contains(y) <==> exists|p: int|
                        0 <= p < q + 1 && #[trigger] kids@[p] == y && below@[y as int] by {
                    if r@.contains(y) {
                        let j = choose|j: int| 0 <= j < r.len() && r@[j] == y;
                        if j < old_r.len() {
                            assert(old_r[j] == y);
                            assert(old_r.contains(y));
                            let p = choose|p: int| 0 <= p < q && #[trigger] kids@[p] == y && below@[y as int];
                            assert(0 <= p < q + 1 && kids@[p] == y && below@[y as int]);
                        } else {
                            assert(kids@[q as int] == y && below@[y as int]);
                        }
                    }
                    if exists|p: int| 0 <= p < q + 1 && #[trigger] kids@[p] == y && below@[y as int] {
                        let p = choose|p: int| 0 <= p < q + 1 && #[trigger] kids@[p] == y && below@[y as int];
                        if p == q {
                            assert(r@[r.len() - 1] == y);
                        } else {
                            assert(old_r.contains(y));
                            let j = choose|j: int| 0 <= j < old_r.len() && old_r[j] == y;
                            assert(r@[j] == y);
                        }
                    }
                }
            }
            q = q + 1;
        }
        proof {
            let target = self.children_of(u as int).filter(|x: NodeId| self.reaches_by_detour(u, x));
            assert forall|x: NodeId| r@.to_set().contains(x) <==> target.contains(x) by {
                if r@.to_set().contains(x) {
                    assert(r@.contains(x));
                    let p = choose|p: int| 0 <= p < kids.len() && #[trigger] kids@[p] == x && below@[x as int];
                    assert(kids@.to_set().contains(x));
                    assert(self.reached_from(grand@, x));
                    let j = choose|j: int| 0 <= j < grand.len() && self.reaches(#[trigger] grand@[j], x);
                    assert(grand@.contains(grand@[j]));
                    let p2 = choose|p2: int| 0 <= p2 < kids.len() && #[trigger] self.edge(kids@[p2], grand@[j]);
                    assert(kids@.to_set().contains(kids@[p2]));
                    assert(self.edge(u, kids@[p2]));
                }
                if target.contains(x) {
                    assert(self.reaches_by_detour(u, x));
                    let (c, g) = choose|c: NodeId, g: NodeId|
                        #[trigger] self.edge(u, c) && #[trigger] self.edge(c, g) && self.reaches(g, x);
                    assert(kids@.to_set().contains(c));
                    let p2 = choose|p2: int| 0 <= p2 < kids.len() && kids@[p2] == c;
                    assert(self.edge(kids@[p2], g));
                    assert(grand@.contains(g));
                    let j = choose|j: int| 0 <= j < grand.len() && grand@[j] == g;
                    assert(self.reaches(grand@[j], x));
                    assert(self.reached_from(grand@, x));
                    assert(kids@.to_set().contains(x));
                    let p = choose|p: int| 0 <= p < kids.len() && kids@[p] == x;
                    assert(below@[x as int]);
                    assert(kids@[p] == x && below@[x as int]);
                    assert(r@.contains(x));
                }
            }
            assert(r@.to_set() =~= target);
        }
        r
    }

    /// Removes every edge from a node that some root reaches to a child that
    /// the node also reaches by a detour through another child. Which edges go
    /// is decided on the graph as it stands at the call; on an acyclic graph
    /// removing one such edge leaves every other such edge redundant, so the
    /// result is the one a node-by-node pass from the roots gives. Roots are
    /// left as they were.
    pub fn transitive_reduce(&mut self)
        requires
            old(self).wf(),
            !old(self).has_reachable_cycle(),
        ensures
            final(self).is_reduction_of(*old(self)),
    {
        let ghost before = *self;
        let n = self.nodes.len();
        let roots = members(&self.roots);
        proof {
            assert forall|j: int| 0 <= j < roots.len() implies #[trigger] roots@[j] < n by {
                assert(roots@.to_set().contains(roots@[j]));
            }
            lemma_roots_reached(self, roots@);
        }
        let live = self.reach_marks(&roots);
        let mut plan: Vec<Vec<NodeId>> = Vec::new();
        let mut u: usize = 0;
        while u < n
            invariant
                self.wf(),
                n == self.nodes.len(),
                live.len() == n,
                forall|v: NodeId| (v as int) < n ==> live@[v as int] == self.reachable(v),
                u <= n,
                plan.len() == u,
                forall|i: int|
                    0 <= i < u ==> (#[trigger] plan@[i])@.to_set() == self.children_of(i).difference(
                        self.reduced_children(i),
                    ),
            decreases n - u,
        {
            let ghost i = u as int;
            if live[u] {
                let d = self.detour_children(u);
                proof {
                    assert(d@.to_set() =~= self.children_of(i).difference(self.reduced_children(i)));
                }
                plan.push(d);
            } else {
                proof {
                    assert(Seq::<NodeId>::empty().to_set() =~= self.children_of(i).difference(
                        self.reduced_children(i),
                    ));
                }
                plan.push(Vec::new());
            }
            u = u + 1;
        }
        let mut u: usize = 0;
        while u < n
            invariant
                before.wf(),
                n == before.nodes.len(),
                n == self.nodes.len(),
                self.roots@ == before.roots@,
                plan.len() == n,
                forall|i: int|
                    0 <= i < n ==> (#[trigger] plan@[i])@.to_set() == before.children_of(i).difference(
                        before.reduced_children(i),
                    ),
                u <= n,
                forall|i: int| 0 <= i < n ==> #[trigger] self.nodes@[i].elem == before.nodes@[i].elem,
                forall|i: int| 0 <= i < u ==> #[trigger] self.children_of(i) == before.reduced_children(i),
                forall|i: int| u <= i < n ==> #[trigger] self.children_of(i) == before.children_of(i),
            decreases n - u,
        {
            let xs = &plan[u];
            let mut k: usize = 0;
            while k < xs.len()
                invariant
                    before.wf(),
                    n == before.nodes.len(),
                    n == self.nodes.len(),
                    u < n,
                    self.roots@ == before.roots@,
                    xs@.to_set() == before.children_of(u as int).difference(
                        before.reduced_children(u as int),
                    ),
                    forall|i: int| 0 <= i < n ==> #[trigger] self.nodes@[i].elem == before.nodes@[i].elem,
                    forall|i: int| 0 <= i < u ==> #[trigger] self.children_of(i) == before.reduced_children(i),
                    forall|i: int| u < i < n ==> #[trigger] self.children_of(i) == before.children_of(i),
                    k <= xs.len(),
                    self.children_of(u as int) == before.children_of(u as int).difference(
                        xs@.take(k as int).to_set(),
                    ),
                decreases xs.len() - k,
            {
                let ghost prev = *self;
                self.nodes[u].children.remove(&xs[k]);
                proof {
                    assert forall|i: int| 0 <= i < u implies #[trigger] self.children_of(i)
                        == before.reduced_children(i) by {
                        assert(self.nodes@[i] == prev.nodes@[i]);
                        assert(prev.children_of(i) == before.reduced_children(i));
                    }
                    assert forall|i: int| u < i < n implies #[trigger] self.children_of(i)
                        == before.children_of(i) by {
                        assert(self.nodes@[i] == prev.nodes@[i]);
                        assert(prev.children_of(i) == before.children_of(i));
                    }
                    xs@.take(k as int).lemma_push_to_set_commute(xs@[k as int]);
                    assert(xs@.take(k + 1) == xs@.take(k as int).push(xs@[k as int]));
                    assert(self.children_of(u as int) =~= before.children_of(u as int).difference(
                        xs@.take(k + 1).to_set(),
                    ));
                }
                k = k + 1;
            }
            proof {
                assert(xs@.take(k as int) == xs@);
                let i = u as int;
                assert(self.children_of(i) =~= before.reduced_children(i)) by {
                    if before.reachable(u) {
                        assert forall|x: NodeId| before.reduced_children(i).contains(x) implies before.children_of(i).contains(x) by {}
                    }
                }
            }
            u = u + 1;
        }
        proof {
            assert forall|i: int| 0 <= i < n implies #[trigger] self.children_of(i).subset_of(
                before.children_of(i),
            ) by {
                assert(self.children_of(i) == before.reduced_children(i));
            }
            assert forall|i: int| 0 <= i < self.nodes.len() implies #[trigger] self.children_of(i).finite() by {
                assert(self.children_of(i).subset_of(before.children_of(i)));
                vstd::set_lib::lemma_len_subset(self.children_of(i), before.children_of(i));
            }
            assert forall|i: int, c: NodeId|
                0 <= i < self.nodes.len() && #[trigger] self.children_of(i).contains(c) implies c
                    < self.nodes.len() by {
                assert(self.children_of(i).subset_of(before.children_of(i)));
                assert(before.children_of(i).contains(c));
            }
            assert forall|i: int, r: NodeId|
                #![trigger self.roots@.contains(r), self.children_of(i).contains(r)]
                0 <= i < self.nodes.len() && self.roots@.contains(r) implies !self.children_of(i).contains(r) by {
                assert(self.children_of(i).subset_of(before.children_of(i)));
                assert(!before.children_of(i).contains(r));
            }
        }
    }
}

} // verus!
