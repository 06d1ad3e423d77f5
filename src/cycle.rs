//! Cycle detection by a depth-first search that keeps the current path.

use crate::dag::{members, Dag, NodeId};
use crate::walks::lemma_distinct_len;
use vstd::prelude::*;

verus! {

broadcast use vstd::std_specs::btree::group_btree_axioms;

/// Whether `x` stands in `v`.
fn holds(v: &Vec<NodeId>, x: NodeId) -> (r: bool)
    ensures
        r == v@.contains(x),
{
    let mut k: usize = 0;
    while k < v.len()
        invariant
            k <= v.len(),
            forall|j: int| 0 <= j < k ==> v@[j] != x,
        decreases v.len() - k,
    {
        if v[k] == x {
            return true;
        }
        k = k + 1;
    }
    false
}

impl<T: Ord> Dag<T> {
    /// Searches every walk from `curr` for a node that is already on the path
    /// `ancestors` or that the walk passes twice. When none is found the path
    /// is left as it was.
    fn cycle_check_iter(&self, curr: NodeId, ancestors: &mut Vec<NodeId>) -> (r: bool)
        requires
            self.wf(),
            curr < self.nodes.len(),
            old(ancestors)@.no_duplicates(),
            forall|k: int| 0 <= k < old(ancestors).len() ==> #[trigger] old(ancestors)@[k] < self.nodes.len(),
        ensures
            !r ==> final(ancestors)@ == old(ancestors)@,
            r ==> exists|p: Seq<NodeId>|
                #[trigger] self.is_walk(p) && p[0] == curr && !(old(ancestors)@ + p).no_duplicates(),
            !r ==> forall|p: Seq<NodeId>|
                #[trigger] self.is_walk(p) && p[0] == curr ==> (old(ancestors)@ + p).no_duplicates(),
        decreases self.nodes.len() - old(ancestors)@.len(),
    {
        let ghost path = ancestors@;
        let n = self.nodes.len();
        if holds(ancestors, curr) {
            proof {
                let p = seq![curr];
                assert(self.is_walk(p));
                let j = choose|j: int| 0 <= j < path.len() && path[j] == curr;
                assert((path + p)[j] == (path + p)[path.len() as int]);
            }
            return true;
        }
        proof {
            lemma_distinct_len(path.push(curr), n as nat);
        }
        ancestors.push(curr);
        let kids = members(&self.nodes[curr].children);
        proof {
            assert forall|p: int| 0 <= p < kids.len() implies #[trigger] kids@[p] < n by {
                assert(kids@.to_set().contains(kids@[p]));
                assert(self.children_of(curr as int).contains(kids@[p]));
            }
        }
        let mut q: usize = 0;
        while q < kids.len()
            invariant
                self.wf(),
                n == self.nodes.len(),
                curr < n,
                !path.contains(curr),
                path == old(ancestors)@,
                path.no_duplicates(),
                path.len() < n,
                forall|k: int| 0 <= k < path.len() ==> #[trigger] path[k] < n,
                ancestors@ == path.push(curr),
                kids@.to_set() == self.children_of(curr as int),
                forall|p: int| 0 <= p < kids.len() ==> #[trigger] kids@[p] < n,
                q <= kids.len(),
                forall|i: int, p: Seq<NodeId>|
                    0 <= i < q && #[trigger] self.is_walk(p) && p[0] == #[trigger] kids@[i] ==> (
                    path.push(curr) + p).no_duplicates(),
            decreases kids.len() - q,
        {
            proof {
                assert forall|k: int| 0 <= k < ancestors.len() implies #[trigger] ancestors@[k]
                    < n by {
                    if k < path.len() {
                        assert(ancestors@[k] == path[k]);
                    }
                }
            }
            let c = kids[q];
            if self.cycle_check_iter(c, ancestors) {
                proof {
                    let p = choose|p: Seq<NodeId>|
                        #[trigger] self.is_walk(p) && p[0] == c && !(path.push(curr) + p).no_duplicates();
                    let p2 = seq![curr] + p;
                    assert(kids@.to_set().contains(c));
                    assert(self.edge(curr, c));
                    assert(self.is_walk(p2)) by {
                        assert forall|k: int| 0 <= k < p2.len() - 1 implies #[trigger] self.edge(
                            p2[k],
                            p2[k + 1],
                        ) by {
                            if k > 0 {
                                assert(p2[k] == p[k - 1] && p2[k + 1] == p[k]);
                                assert(self.edge(p[k - 1], p[k - 1 + 1]));
                            }
                        }
                    }
                    assert(path + p2 =~= path.push(curr) + p);
                    assert(!(path + p2).no_duplicates());
                    assert(p2[0] == curr);
                }
                return true;
            }
            q = q + 1;
        }
        ancestors.pop();
        proof {
            assert(ancestors@ =~= path);
            assert forall|p: Seq<NodeId>| #[trigger] self.is_walk(p) && p[0] == curr implies (path
                + p).no_duplicates() by {
                if p.len() == 1 {
                    assert(path + p =~= path.push(curr));
                } else {
                    let rest = p.drop_first();
                    assert(self.edge(p[0int], p[0int + 1]));
                    assert(self.children_of(curr as int).contains(p[1]));
                    assert(kids@.to_set().contains(p[1]));
                    let i = choose|i: int| 0 <= i < kids.len() && kids@[i] == p[1];
                    assert(self.is_walk(rest)) by {
                        assert forall|k: int| 0 <= k < rest.len() - 1 implies #[trigger] self.edge(
                            rest[k],
                            rest[k + 1],
                        ) by {
                            assert(self.edge(p[k + 1], p[k + 1 + 1]));
                        }
                    }
                    assert(rest[0] == kids@[i]);
                    assert(path + p =~= path.push(curr) + rest);
                }
            }
        }
        false
    }

    /// Whether a cycle lies within reach of the roots: a depth-first search
    /// from each root keeps the path that led to the current node and stops as
    /// soon as a node on that path is met again. A node left behind may be met
    /// again along another path without counting as a cycle.
    pub fn cycle_check(&self) -> (r: bool)
        requires
            self.wf(),
        ensures
            r == self.has_reachable_cycle(),
    {
        let starts = members(&self.roots);
        let n = self.nodes.len();
        proof {
            assert forall|j: int| 0 <= j < starts.len() implies #[trigger] starts@[j] < n by {
                assert(starts@.to_set().contains(starts@[j]));
            }
        }
        let mut ancestors: Vec<NodeId> = Vec::new();
        let mut j: usize = 0;
        while j < starts.len()
            invariant
                self.wf(),
                n == self.nodes.len(),
                starts@.to_set() == self.roots@,
                forall|k: int| 0 <= k < starts.len() ==> #[trigger] starts@[k] < n,
                ancestors@ == Seq::<NodeId>::empty(),
                j <= starts.len(),
                forall|i: int, p: Seq<NodeId>|
                    0 <= i < j && #[trigger] self.is_walk(p) && p[0] == #[trigger] starts@[i]
                        ==> p.no_duplicates(),
            decreases starts.len() - j,
        {
            let ghost empty = ancestors@;
            if self.cycle_check_iter(starts[j], &mut ancestors) {
                proof {
                    let p = choose|p: Seq<NodeId>|
                        #[trigger] self.is_walk(p) && p[0] == starts@[j as int] && !(empty
                            + p).no_duplicates();
                    assert(empty + p =~= p);
                    assert(starts@.to_set().contains(starts@[j as int]));
                }
                return true;
            }
            proof {
                assert forall|p: Seq<NodeId>|
                    #[trigger] self.is_walk(p) && p[0] == starts@[j as int] implies p.no_duplicates() by {
                    assert(empty + p =~= p);
                }
            }
            j = j + 1;
        }
        proof {
            assert forall|w: Seq<NodeId>|
                #[trigger] self.is_walk(w) && self.roots@.contains(w[0]) implies w.no_duplicates() by {
                assert(starts@.to_set().contains(w[0]));
                let i = choose|i: int| 0 <= i < starts.len() && starts@[i] == w[0];
            }
        }
        false
    }
}

} // verus!
